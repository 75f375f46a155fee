//! What the planner is told about a codebase: its kind, its key files and the tasks
//! already on the board, as one summary text.

use vstd::prelude::*;

use crate::planner_types::OcCodebaseContext;
use crate::text::{
    contains_text, first_line, first_line_of, joined_with, join_strings, lines, push_str,
    split_lines, str_eq, trim, trimmed, views,
};

verus! {

/// The kind of project found in the repositories.
#[derive(Debug, Clone, PartialEq)]
pub enum ProjectType {
    Rust,
    TypeScript,
    JavaScript,
    Python,
    Go,
    Ruby,
    Java,
    Php,
    Mixed(Vec<String>),
    Unknown,
}

/// A notable file or directory found at the root of a repository.
#[derive(Debug, Clone)]
pub struct KeyFileInfo {
    /// Path relative to the repository root.
    pub path: String,
    /// `Manifest`, `Readme`, `Config` or `SourceDir`.
    pub file_kind: String,
    /// The first lines of the file, when it could be read and is not empty.
    pub snippet: Option<String>,
}

/// A task already on the project's board.
#[derive(Debug, Clone)]
pub struct ExistingTaskSummary {
    pub title: String,
    pub status: String,
}

/// Everything the planner is told about the codebase.
#[derive(Debug, Clone)]
pub struct CodebaseContext {
    pub project_type: ProjectType,
    pub key_files: Vec<KeyFileInfo>,
    pub existing_tasks: Vec<ExistingTaskSummary>,
    /// The text handed to the model.
    pub summary: String,
}

/// Scans repositories for the planner.
pub struct CodebaseScanner;

impl ProjectType {
    /// The name shown for this kind of project; a mixed project lists its languages
    /// joined by ` + `.
    pub open spec fn label_text(self) -> Seq<char> {
        match self {
            ProjectType::Rust => "Rust"@,
            ProjectType::TypeScript => "TypeScript"@,
            ProjectType::JavaScript => "JavaScript"@,
            ProjectType::Python => "Python"@,
            ProjectType::Go => "Go"@,
            ProjectType::Ruby => "Ruby"@,
            ProjectType::Java => "Java"@,
            ProjectType::Php => "PHP"@,
            ProjectType::Mixed(langs) => joined_with(views(langs@), " + "@),
            ProjectType::Unknown => "Unknown"@,
        }
    }

    /// The name shown for this kind of project.
    pub fn label(&self) -> (r: String)
        ensures
            r@ == self.label_text(),
    {
        match self {
            ProjectType::Rust => String::from_str("Rust"),
            ProjectType::TypeScript => String::from_str("TypeScript"),
            ProjectType::JavaScript => String::from_str("JavaScript"),
            ProjectType::Python => String::from_str("Python"),
            ProjectType::Go => String::from_str("Go"),
            ProjectType::Ruby => String::from_str("Ruby"),
            ProjectType::Java => String::from_str("Java"),
            ProjectType::Php => String::from_str("PHP"),
            ProjectType::Mixed(langs) => join_strings(langs, " + "),
            ProjectType::Unknown => String::from_str("Unknown"),
        }
    }
}

/// The language that a root file of a repository marks, if any.
pub open spec fn language_of(path: Seq<char>) -> Option<Seq<char>> {
    if path == "Cargo.toml"@ {
        Some("Rust"@)
    } else if path == "package.json"@ {
        Some("TypeScript/JavaScript"@)
    } else if path == "pyproject.toml"@ || path == "requirements.txt"@ {
        Some("Python"@)
    } else if path == "go.mod"@ {
        Some("Go"@)
    } else if path == "Gemfile"@ {
        Some("Ruby"@)
    } else if path == "pom.xml"@ || path == "build.gradle"@ {
        Some("Java"@)
    } else if path == "composer.json"@ {
        Some("PHP"@)
    } else {
        None
    }
}

/// The languages marked by the files, each once, in the order of first appearance.
pub open spec fn languages_found(files: Seq<KeyFileInfo>) -> Seq<Seq<char>>
    decreases files.len(),
{
    if files.len() == 0 {
        Seq::empty()
    } else {
        let prev = languages_found(files.drop_last());
        match language_of(files.last().path@) {
            Some(l) => if prev.contains(l) {
                prev
            } else {
                prev.push(l)
            },
            None => prev,
        }
    }
}

/// The kind of a project that uses one language.
pub open spec fn single_language_type(lang: Seq<char>) -> ProjectType {
    if lang == "Rust"@ {
        ProjectType::Rust
    } else if lang == "TypeScript/JavaScript"@ {
        ProjectType::TypeScript
    } else if lang == "Python"@ {
        ProjectType::Python
    } else if lang == "Go"@ {
        ProjectType::Go
    } else if lang == "Ruby"@ {
        ProjectType::Ruby
    } else if lang == "Java"@ {
        ProjectType::Java
    } else if lang == "PHP"@ {
        ProjectType::Php
    } else {
        ProjectType::Unknown
    }
}

/// `t` is the kind of a project with the languages `langs`: unknown with none, the
/// language's own kind with one, and mixed, listing them, with more.
pub open spec fn is_type_of(t: ProjectType, langs: Seq<Seq<char>>) -> bool {
    if langs.len() == 0 {
        t == ProjectType::Unknown
    } else if langs.len() == 1 {
        t == single_language_type(langs[0])
    } else {
        t matches ProjectType::Mixed(v) && views(v@) == langs
    }
}

/// Whether the kind of a file is one that the summary lists.
pub open spec fn is_listed_kind(kind: Seq<char>) -> bool {
    kind == "Manifest"@ || kind == "Config"@ || kind == "Readme"@
}

/// The files that the summary lists, in order.
pub open spec fn listed_files(files: Seq<KeyFileInfo>) -> Seq<KeyFileInfo>
    decreases files.len(),
{
    if files.len() == 0 {
        Seq::empty()
    } else if is_listed_kind(files.last().file_kind@) {
        listed_files(files.drop_last()).push(files.last())
    } else {
        listed_files(files.drop_last())
    }
}

/// The manifests among the files, in order.
pub open spec fn manifest_files_of(files: Seq<KeyFileInfo>) -> Seq<KeyFileInfo>
    decreases files.len(),
{
    if files.len() == 0 {
        Seq::empty()
    } else if files.last().file_kind@ == "Manifest"@ {
        manifest_files_of(files.drop_last()).push(files.last())
    } else {
        manifest_files_of(files.drop_last())
    }
}

/// At most the first three items.
pub open spec fn first_three<A>(s: Seq<A>) -> Seq<A> {
    if s.len() <= 3 {
        s
    } else {
        s.take(3)
    }
}

/// The line of a listed file: its path, then the trimmed first line of its snippet when
/// that is not empty.
pub open spec fn file_line(f: KeyFileInfo) -> Seq<char> {
    let note = match f.snippet {
        Some(s) => if trim(first_line(s@)).len() > 0 {
            " → "@ + trim(first_line(s@))
        } else {
            Seq::empty()
        },
        None => Seq::empty(),
    };
    "- `"@ + f.path@ + "`"@ + note + "\n"@
}

/// The lines of the files, one after the other.
pub open spec fn file_lines(files: Seq<KeyFileInfo>) -> Seq<char>
    decreases files.len(),
{
    if files.len() == 0 {
        Seq::empty()
    } else {
        file_lines(files.drop_last()) + file_line(files.last())
    }
}

/// A manifest's snippet as a fenced block under its path, or nothing without a snippet.
pub open spec fn snippet_block(f: KeyFileInfo) -> Seq<char> {
    match f.snippet {
        Some(s) => "\n### "@ + f.path@ + "\n```\n"@ + s@ + "\n```\n"@,
        None => Seq::empty(),
    }
}

/// The snippet blocks of the files, one after the other.
pub open spec fn snippet_blocks(files: Seq<KeyFileInfo>) -> Seq<char>
    decreases files.len(),
{
    if files.len() == 0 {
        Seq::empty()
    } else {
        snippet_blocks(files.drop_last()) + snippet_block(files.last())
    }
}

/// The section on key files: a line for each listed file, then the snippets of the
/// first three manifests.
pub open spec fn key_files_section(files: Seq<KeyFileInfo>) -> Seq<char> {
    "## Anahtar Dosyalar\n"@ + file_lines(listed_files(files)) + snippet_blocks(
        first_three(manifest_files_of(files)),
    )
}

/// The line of a task on the board.
pub open spec fn task_line(t: ExistingTaskSummary) -> Seq<char> {
    "- ["@ + t.status@ + "] "@ + t.title@ + "\n"@
}

/// The lines of the tasks, one after the other.
pub open spec fn task_lines(tasks: Seq<ExistingTaskSummary>) -> Seq<char>
    decreases tasks.len(),
{
    if tasks.len() == 0 {
        Seq::empty()
    } else {
        task_lines(tasks.drop_last()) + task_line(tasks.last())
    }
}

/// The section on the tasks already on the board.
pub open spec fn tasks_section(tasks: Seq<ExistingTaskSummary>) -> Seq<char> {
    if tasks.len() > 0 {
        "## Mevcut Görevler (Yeni görev oluştururken duplikasyondan kaçın)\n"@ + task_lines(tasks)
    } else {
        "## Mevcut Görevler\nHenüz görev yok."@
    }
}

/// The summary text: the project's kind, the key files when any is listed, and the
/// tasks on the board, as sections separated by a blank line.
pub open spec fn summary_text(
    label: Seq<char>,
    files: Seq<KeyFileInfo>,
    tasks: Seq<ExistingTaskSummary>,
) -> Seq<char> {
    let head = "## Proje Tipi\n"@ + label;
    let with_files = if listed_files(files).len() > 0 {
        head + "\n\n"@ + key_files_section(files)
    } else {
        head
    };
    with_files + "\n\n"@ + tasks_section(tasks)
}

/// What `read_snippet` keeps of a file's text: its first `max_lines` lines joined by
/// newlines, or nothing when it has no line.
pub open spec fn snippet_text(content: Seq<char>, max_lines: nat) -> Option<Seq<char>> {
    let ls = lines(content);
    let k = if ls.len() < max_lines {
        ls.len()
    } else {
        max_lines
    };
    if k == 0 {
        None
    } else {
        Some(joined_with(ls.take(k as int), "\n"@))
    }
}

/// The files looked for at the root of a repository, with their kinds, in order.
pub open spec fn manifest_table() -> Seq<(Seq<char>, Seq<char>)> {
    seq![
        ("Cargo.toml"@, "Manifest"@),
        ("package.json"@, "Manifest"@),
        ("pyproject.toml"@, "Manifest"@),
        ("requirements.txt"@, "Manifest"@),
        ("go.mod"@, "Manifest"@),
        ("Gemfile"@, "Manifest"@),
        ("pom.xml"@, "Manifest"@),
        ("build.gradle"@, "Manifest"@),
        ("composer.json"@, "Manifest"@),
        ("README.md"@, "Readme"@),
        ("readme.md"@, "Readme"@),
        (".env.example"@, "Config"@),
        ("docker-compose.yml"@, "Config"@),
        ("Dockerfile"@, "Config"@),
    ]
}

/// The source directories looked for at the root of a repository, in order.
pub open spec fn source_dir_table() -> Seq<Seq<char>> {
    seq!["src"@, "lib"@, "app"@, "pkg"@, "cmd"@]
}

/// The number of lines kept of a file's text.
pub const SNIPPET_LINES: usize = 25;

/// A key file as plain text: path, kind and snippet.
pub open spec fn key_file_view(f: KeyFileInfo) -> (Seq<char>, Seq<char>, Option<Seq<char>>) {
    (
        f.path@,
        f.file_kind@,
        match f.snippet {
            Some(s) => Some(s@),
            None => None,
        },
    )
}

/// Key files as plain text.
pub open spec fn key_file_views(fs: Seq<KeyFileInfo>) -> Seq<(Seq<char>, Seq<char>, Option<Seq<char>>)> {
    fs.map_values(|f: KeyFileInfo| key_file_view(f))
}

/// What was found for the `i`-th file of the table: `None` when it is absent, else what
/// reading it gave.
pub open spec fn probe_at(found: Seq<Option<Option<String>>>, i: int) -> Option<Option<String>> {
    if 0 <= i < found.len() {
        found[i]
    } else {
        None
    }
}

/// The key files from the first `k` entries of the table.
pub open spec fn manifest_entries(found: Seq<Option<Option<String>>>, k: nat) -> Seq<
    (Seq<char>, Seq<char>, Option<Seq<char>>),
>
    decreases k,
{
    if k == 0 {
        Seq::empty()
    } else {
        let prev = manifest_entries(found, (k - 1) as nat);
        let (path, kind) = manifest_table()[k - 1];
        match probe_at(found, k - 1) {
            Some(read) => prev.push(
                (
                    path,
                    kind,
                    match read {
                        Some(c) => snippet_text(c@, SNIPPET_LINES as nat),
                        None => None,
                    },
                ),
            ),
            None => prev,
        }
    }
}

/// The key files from the first `k` source directories of the table.
pub open spec fn dir_entries(dirs: Seq<bool>, k: nat) -> Seq<(Seq<char>, Seq<char>, Option<Seq<char>>)>
    decreases k,
{
    if k == 0 {
        Seq::empty()
    } else {
        let prev = dir_entries(dirs, (k - 1) as nat);
        if k - 1 < dirs.len() && dirs[k - 1] {
            prev.push((source_dir_table()[k - 1], "SourceDir"@, None))
        } else {
            prev
        }
    }
}

/// The key files of one repository: the table's files that were found, then its source
/// directories that were found.
pub open spec fn repo_entries(found: Seq<Option<Option<String>>>, dirs: Seq<bool>) -> Seq<
    (Seq<char>, Seq<char>, Option<Seq<char>>),
> {
    manifest_entries(found, manifest_table().len()) + dir_entries(dirs, source_dir_table().len())
}

fn language_for(path: &str) -> (r: Option<&'static str>)
    ensures
        match r {
            Some(l) => language_of(path@) == Some(l@),
            None => language_of(path@) is None,
        },
{
    if str_eq(path, "Cargo.toml") {
        Some("Rust")
    } else if str_eq(path, "package.json") {
        Some("TypeScript/JavaScript")
    } else if str_eq(path, "pyproject.toml") || str_eq(path, "requirements.txt") {
        Some("Python")
    } else if str_eq(path, "go.mod") {
        Some("Go")
    } else if str_eq(path, "Gemfile") {
        Some("Ruby")
    } else if str_eq(path, "pom.xml") || str_eq(path, "build.gradle") {
        Some("Java")
    } else if str_eq(path, "composer.json") {
        Some("PHP")
    } else {
        None
    }
}

fn single_language(lang: &str) -> (r: ProjectType)
    ensures
        r == single_language_type(lang@),
{
    if str_eq(lang, "Rust") {
        ProjectType::Rust
    } else if str_eq(lang, "TypeScript/JavaScript") {
        ProjectType::TypeScript
    } else if str_eq(lang, "Python") {
        ProjectType::Python
    } else if str_eq(lang, "Go") {
        ProjectType::Go
    } else if str_eq(lang, "Ruby") {
        ProjectType::Ruby
    } else if str_eq(lang, "Java") {
        ProjectType::Java
    } else if str_eq(lang, "PHP") {
        ProjectType::Php
    } else {
        ProjectType::Unknown
    }
}

fn is_listed(kind: &str) -> (r: bool)
    ensures
        r == is_listed_kind(kind@),
{
    str_eq(kind, "Manifest") || str_eq(kind, "Config") || str_eq(kind, "Readme")
}

fn file_line_of(f: &KeyFileInfo) -> (r: String)
    ensures
        r@ == file_line(*f),
{
    let mut s = String::new();
    push_str(&mut s, "- `");
    push_str(&mut s, f.path.as_str());
    push_str(&mut s, "`");
    match &f.snippet {
        Some(snip) => {
            let first = first_line_of(snip.as_str());
            let t = trimmed(first.as_str());
            if !t.as_str().is_empty() {
                push_str(&mut s, " → ");
                push_str(&mut s, t.as_str());
            }
        },
        None => {},
    }
    push_str(&mut s, "\n");
    s
}

fn snippet_block_of(f: &KeyFileInfo) -> (r: String)
    ensures
        r@ == snippet_block(*f),
{
    let mut s = String::new();
    match &f.snippet {
        Some(snip) => {
            push_str(&mut s, "\n### ");
            push_str(&mut s, f.path.as_str());
            push_str(&mut s, "\n```\n");
            push_str(&mut s, snip.as_str());
            push_str(&mut s, "\n```\n");
        },
        None => {},
    }
    s
}

fn key_files_section_of(files: &[KeyFileInfo]) -> (r: (String, bool))
    ensures
        r.0@ == key_files_section(files@),
        r.1 == (listed_files(files@).len() > 0),
{
    let n = files.len();
    let mut sec = String::new();
    push_str(&mut sec, "## Anahtar Dosyalar\n");
    let ghost head = sec@;
    let mut any = false;
    for i in 0..n
        invariant
            n == files@.len(),
            head == "## Anahtar Dosyalar\n"@,
            sec@ == head + file_lines(listed_files(files@.take(i as int))),
            any == (listed_files(files@.take(i as int)).len() > 0),
    {
        let f = &files[i];
        proof {
            assert(files@.take(i + 1).drop_last() =~= files@.take(i as int));
            assert(files@.take(i + 1).last() == files@[i as int]);
        }
        if is_listed(f.file_kind.as_str()) {
            let ghost before = sec@;
            let line = file_line_of(f);
            push_str(&mut sec, line.as_str());
            any = true;
            proof {
                let l = listed_files(files@.take(i as int));
                assert(l.push(*f).drop_last() =~= l);
                assert(sec@ =~= head + file_lines(l.push(*f)));
            }
        }
    }
    assert(files@.take(n as int) =~= files@);
    let ghost mid = sec@;
    let mut taken: usize = 0;
    assert(manifest_files_of(files@.take(0)) =~= Seq::<KeyFileInfo>::empty());
    for i in 0..n
        invariant
            n == files@.len(),
            mid == "## Anahtar Dosyalar\n"@ + file_lines(listed_files(files@)),
            sec@ == mid + snippet_blocks(first_three(manifest_files_of(files@.take(i as int)))),
            taken as nat == first_three(manifest_files_of(files@.take(i as int))).len(),
            taken <= 3,
    {
        let f = &files[i];
        let ghost m = manifest_files_of(files@.take(i as int));
        proof {
            assert(files@.take(i + 1).drop_last() =~= files@.take(i as int));
            assert(files@.take(i + 1).last() == files@[i as int]);
        }
        if str_eq(f.file_kind.as_str(), "Manifest") {
            let ghost m2 = m.push(*f);
            assert(manifest_files_of(files@.take(i + 1)) == m2);
            if taken < 3 {
                let ghost before = sec@;
                let block = snippet_block_of(f);
                push_str(&mut sec, block.as_str());
                taken = taken + 1;
                proof {
                    assert(m.len() < 3);
                    assert(first_three(m2) == m2);
                    assert(m2.drop_last() =~= m);
                    assert(sec@ =~= mid + snippet_blocks(m2));
                }
            } else {
                proof {
                    assert(m.len() >= 3);
                    assert(m2.take(3) =~= m.take(3));
                    if m.len() == 3 {
                        assert(m.take(3) =~= m);
                    }
                }
            }
        }
    }
    assert(files@.take(n as int) =~= files@);
    (sec, any)
}

fn tasks_section_of(tasks: &[ExistingTaskSummary]) -> (r: String)
    ensures
        r@ == tasks_section(tasks@),
{
    let mut s = String::new();
    if tasks.len() == 0 {
        push_str(&mut s, "## Mevcut Görevler\nHenüz görev yok.");
        return s;
    }
    push_str(&mut s, "## Mevcut Görevler (Yeni görev oluştururken duplikasyondan kaçın)\n");
    let ghost head = s@;
    let n = tasks.len();
    for i in 0..n
        invariant
            n == tasks@.len(),
            s@ == head + task_lines(tasks@.take(i as int)),
    {
        let t = &tasks[i];
        let ghost before = s@;
        push_str(&mut s, "- [");
        push_str(&mut s, t.status.as_str());
        push_str(&mut s, "] ");
        push_str(&mut s, t.title.as_str());
        push_str(&mut s, "\n");
        proof {
            assert(tasks@.take(i + 1).drop_last() =~= tasks@.take(i as int));
            assert(tasks@.take(i + 1).last() == tasks@[i as int]);
            assert(s@ =~= before + task_line(*t));
        }
    }
    assert(tasks@.take(n as int) =~= tasks@);
    s
}

impl CodebaseScanner {
    /// The files looked for at the root of a repository, with their kinds, in order.
    pub fn manifest_files() -> (r: Vec<(&'static str, &'static str)>)
        ensures
            r@.map_values(|p: (&'static str, &'static str)| (p.0@, p.1@)) == manifest_table(),
    {
        let r = vec![
            ("Cargo.toml", "Manifest"),
            ("package.json", "Manifest"),
            ("pyproject.toml", "Manifest"),
            ("requirements.txt", "Manifest"),
            ("go.mod", "Manifest"),
            ("Gemfile", "Manifest"),
            ("pom.xml", "Manifest"),
            ("build.gradle", "Manifest"),
            ("composer.json", "Manifest"),
            ("README.md", "Readme"),
            ("readme.md", "Readme"),
            (".env.example", "Config"),
            ("docker-compose.yml", "Config"),
            ("Dockerfile", "Config"),
        ];
        assert(r@.map_values(|p: (&'static str, &'static str)| (p.0@, p.1@)) =~= manifest_table());
        r
    }

    /// The source directories looked for at the root of a repository, in order.
    pub fn source_dirs() -> (r: Vec<&'static str>)
        ensures
            r@.map_values(|d: &'static str| d@) == source_dir_table(),
    {
        let r = vec!["src", "lib", "app", "pkg", "cmd"];
        assert(r@.map_values(|d: &'static str| d@) =~= source_dir_table());
        r
    }

    /// The first `max_lines` lines of a file's text joined by newlines, or `None` when
    /// the text has no line.
    pub fn snippet_of(content: &str, max_lines: usize) -> (r: Option<String>)
        ensures
            match r {
                Some(s) => snippet_text(content@, max_lines as nat) == Some(s@),
                None => snippet_text(content@, max_lines as nat) is None,
            },
    {
        let ls = split_lines(content);
        let k = if ls.len() < max_lines {
            ls.len()
        } else {
            max_lines
        };
        if k == 0 {
            return None;
        }
        let mut kept: Vec<String> = Vec::new();
        for i in 0..k
            invariant
                k <= ls@.len(),
                views(ls@) == lines(content@),
                views(kept@) == views(ls@).take(i as int),
        {
            let ghost before = views(kept@);
            kept.push(ls[i].clone());
            proof {
                assert(views(kept@) =~= before.push(ls@[i as int]@));
                assert(views(ls@).take(i + 1) =~= views(ls@).take(i as int).push(
                    views(ls@)[i as int],
                ));
            }
        }
        Some(join_strings(&kept, "\n"))
    }

    /// The key files of one repository, from what was found at its root: for each entry
    /// of `manifest_files()`, `None` when the file is absent and else what reading it gave;
    /// for each entry of `source_dirs()`, whether that directory exists. Entries missing
    /// from either list count as absent.
    pub fn key_files_of_repo(found: &Vec<Option<Option<String>>>, dirs: &Vec<bool>) -> (r: Vec<
        KeyFileInfo,
    >)
        ensures
            key_file_views(r@) == repo_entries(found@, dirs@),
    {
        let table = Self::manifest_files();
        let mut out: Vec<KeyFileInfo> = Vec::new();
        let ghost tv = table@.map_values(|p: (&'static str, &'static str)| (p.0@, p.1@));
        for i in 0..table.len()
            invariant
                tv == table@.map_values(|p: (&'static str, &'static str)| (p.0@, p.1@)),
                tv == manifest_table(),
                key_file_views(out@) == manifest_entries(found@, i as nat),
        {
            let (path, kind) = table[i];
            assert(tv[i as int] == (path@, kind@));
            let probe: Option<Option<String>> = if i < found.len() {
                found[i].clone()
            } else {
                None
            };
            assert(probe == probe_at(found@, i as int));
            match probe {
                Some(read) => {
                    let snippet = match read {
                        Some(c) => Self::snippet_of(c.as_str(), SNIPPET_LINES),
                        None => None,
                    };
                    let ghost before = key_file_views(out@);
                    let f = KeyFileInfo {
                        path: String::from_str(path),
                        file_kind: String::from_str(kind),
                        snippet,
                    };
                    out.push(f);
                    assert(key_file_views(out@) =~= before.push(key_file_view(f)));
                },
                None => {},
            }
        }
        let ghost mid = key_file_views(out@);
        let sd = Self::source_dirs();
        for j in 0..sd.len()
            invariant
                sd@.map_values(|d: &'static str| d@) == source_dir_table(),
                mid == manifest_entries(found@, manifest_table().len()),
                key_file_views(out@) == mid + dir_entries(dirs@, j as nat),
        {
            assert(sd@.map_values(|d: &'static str| d@)[j as int] == sd@[j as int]@);
            if j < dirs.len() && dirs[j] {
                let ghost before = key_file_views(out@);
                let f = KeyFileInfo {
                    path: String::from_str(sd[j]),
                    file_kind: String::from_str("SourceDir"),
                    snippet: None,
                };
                out.push(f);
                assert(key_file_views(out@) =~= before.push(key_file_view(f)));
            }
        }
        out
    }

    /// The kind of project that the key files show.
    pub fn detect_project_type(key_files: &[KeyFileInfo]) -> (r: ProjectType)
        ensures
            is_type_of(r, languages_found(key_files@)),
    {
        let mut langs: Vec<String> = Vec::new();
        let n = key_files.len();
        for i in 0..n
            invariant
                n == key_files@.len(),
                views(langs@) == languages_found(key_files@.take(i as int)),
        {
            proof {
                assert(key_files@.take(i + 1).drop_last() =~= key_files@.take(i as int));
                assert(key_files@.take(i + 1).last() == key_files@[i as int]);
            }
            match language_for(key_files[i].path.as_str()) {
                Some(l) => {
                    if !contains_text(&langs, l) {
                        let ghost before = views(langs@);
                        langs.push(String::from_str(l));
                        assert(views(langs@) =~= before.push(l@));
                    }
                },
                None => {},
            }
        }
        assert(key_files@.take(n as int) =~= key_files@);
        if langs.len() == 0 {
            ProjectType::Unknown
        } else if langs.len() == 1 {
            assert(views(langs@)[0] == langs@[0]@);
            single_language(langs[0].as_str())
        } else {
            ProjectType::Mixed(langs)
        }
    }

    /// The summary handed to the model: the project's kind, the key files when any is a
    /// manifest, configuration or readme, and the tasks already on the board.
    pub fn build_summary(
        project_type: &ProjectType,
        key_files: &[KeyFileInfo],
        existing_tasks: &[ExistingTaskSummary],
    ) -> (r: String)
        ensures
            r@ == summary_text(project_type.label_text(), key_files@, existing_tasks@),
    {
        let mut out = String::new();
        push_str(&mut out, "## Proje Tipi\n");
        let label = project_type.label();
        push_str(&mut out, label.as_str());
        let (section, any) = key_files_section_of(key_files);
        if any {
            push_str(&mut out, "\n\n");
            push_str(&mut out, section.as_str());
        }
        push_str(&mut out, "\n\n");
        let tasks = tasks_section_of(existing_tasks);
        push_str(&mut out, tasks.as_str());
        out
    }

    /// The context of a scan from the key files found and the tasks on the board: the
    /// project's kind that the files show and the summary of it all.
    pub fn context_of(key_files: Vec<KeyFileInfo>, existing_tasks: Vec<ExistingTaskSummary>) -> (r:
        CodebaseContext)
        ensures
            is_type_of(r.project_type, languages_found(key_files@)),
            r.key_files@ == key_files@,
            r.existing_tasks@ == existing_tasks@,
            r.summary@ == summary_text(
                r.project_type.label_text(),
                key_files@,
                existing_tasks@,
            ),
    {
        let project_type = Self::detect_project_type(key_files.as_slice());
        let summary = Self::build_summary(
            &project_type,
            key_files.as_slice(),
            existing_tasks.as_slice(),
        );
        CodebaseContext { project_type, key_files, existing_tasks, summary }
    }
}

impl CodebaseContext {
    /// The brief of the context returned with a new plan: the project's kind, how many
    /// key files and tasks were found, and the summary.
    pub fn brief(&self) -> (r: OcCodebaseContext)
        ensures
            r.project_type@ == self.project_type.label_text(),
            r.key_file_count == self.key_files@.len(),
            r.existing_task_count == self.existing_tasks@.len(),
            r.summary@ == self.summary@,
    {
        OcCodebaseContext {
            project_type: self.project_type.label(),
            key_file_count: self.key_files.len(),
            existing_task_count: self.existing_tasks.len(),
            summary: self.summary.clone(),
        }
    }
}

/// Each language is found once, however many files mark it.
pub proof fn lemma_languages_distinct(files: Seq<KeyFileInfo>)
    ensures
        languages_found(files).no_duplicates(),
    decreases files.len(),
{
    if files.len() > 0 {
        lemma_languages_distinct(files.drop_last());
        let prev = languages_found(files.drop_last());
        match language_of(files.last().path@) {
            Some(l) => if !prev.contains(l) {
                assert forall|i: int, j: int|
                    0 <= i < prev.push(l).len() && 0 <= j < prev.push(l).len() && i != j implies
                    prev.push(l)[i] != prev.push(l)[j] by {
                    if i == prev.len() {
                        assert(prev[j] == prev.push(l)[j]);
                    } else if j == prev.len() {
                        assert(prev[i] == prev.push(l)[i]);
                    }
                }
            },
            None => {},
        }
    }
}

/// The summary always opens with the project's kind and closes with the tasks on the
/// board, or the note that there are none.
pub proof fn lemma_summary_frame(
    label: Seq<char>,
    files: Seq<KeyFileInfo>,
    tasks: Seq<ExistingTaskSummary>,
)
    ensures
        ({
            let s = summary_text(label, files, tasks);
            let head = "## Proje Tipi\n"@ + label;
            let tail = tasks_section(tasks);
            &&& s.len() >= head.len() + tail.len()
            &&& s.subrange(0, head.len() as int) == head
            &&& s.subrange(s.len() - tail.len(), s.len() as int) == tail
        }),
{
    let s = summary_text(label, files, tasks);
    let head = "## Proje Tipi\n"@ + label;
    let tail = tasks_section(tasks);
    assert(s.subrange(0, head.len() as int) =~= head);
    assert(s.subrange(s.len() - tail.len(), s.len() as int) =~= tail);
}

/// The root files that mark a language: each file's name, the language it marks and the
/// kind of a project that uses that language alone.
pub open spec fn marker_table() -> Seq<(Seq<char>, Seq<char>, ProjectType)> {
    seq![
        ("Cargo.toml"@, "Rust"@, ProjectType::Rust),
        ("package.json"@, "TypeScript/JavaScript"@, ProjectType::TypeScript),
        ("pyproject.toml"@, "Python"@, ProjectType::Python),
        ("requirements.txt"@, "Python"@, ProjectType::Python),
        ("go.mod"@, "Go"@, ProjectType::Go),
        ("Gemfile"@, "Ruby"@, ProjectType::Ruby),
        ("pom.xml"@, "Java"@, ProjectType::Java),
        ("build.gradle"@, "Java"@, ProjectType::Java),
        ("composer.json"@, "PHP"@, ProjectType::Php),
    ]
}

proof fn lemma_marker_texts_distinct()
    ensures
        "Cargo.toml"@.len() == 10,
        "package.json"@.len() == 12,
        "pyproject.toml"@.len() == 14,
        "requirements.txt"@.len() == 16,
        "go.mod"@.len() == 6,
        "Gemfile"@.len() == 7,
        "pom.xml"@.len() == 7,
        "build.gradle"@.len() == 12,
        "composer.json"@.len() == 13,
        "Gemfile"@ != "pom.xml"@,
        "package.json"@ != "build.gradle"@,
        "Rust"@.len() == 4,
        "TypeScript/JavaScript"@.len() == 21,
        "Python"@.len() == 6,
        "Go"@.len() == 2,
        "Ruby"@.len() == 4,
        "Java"@.len() == 4,
        "PHP"@.len() == 3,
        "Rust"@ != "Ruby"@,
        "Rust"@ != "Java"@,
        "Ruby"@ != "Java"@,
{
    reveal_strlit("Cargo.toml");
    reveal_strlit("package.json");
    reveal_strlit("pyproject.toml");
    reveal_strlit("requirements.txt");
    reveal_strlit("go.mod");
    reveal_strlit("Gemfile");
    reveal_strlit("pom.xml");
    reveal_strlit("build.gradle");
    reveal_strlit("composer.json");
    reveal_strlit("Rust");
    reveal_strlit("TypeScript/JavaScript");
    reveal_strlit("Python");
    reveal_strlit("Go");
    reveal_strlit("Ruby");
    reveal_strlit("Java");
    reveal_strlit("PHP");
    assert("Gemfile"@[0] != "pom.xml"@[0]);
    assert("package.json"@[0] != "build.gradle"@[0]);
    assert("Rust"@[2] != "Ruby"@[2]);
    assert("Rust"@[0] != "Java"@[0]);
    assert("Ruby"@[0] != "Java"@[0]);
}

/// Each file of `marker_table()` marks its own language, a project of that language alone
/// is of the table's kind, and no other file marks a language.
pub proof fn lemma_marker_languages(path: Seq<char>)
    ensures
        forall|k: int|
            0 <= k < marker_table().len() ==> language_of(#[trigger] marker_table()[k].0) == Some(
                marker_table()[k].1,
            ) && single_language_type(marker_table()[k].1) == marker_table()[k].2,
        language_of(path) is Some ==> exists|k: int|
            0 <= k < marker_table().len() && #[trigger] marker_table()[k].0 == path && language_of(path)
                == Some(marker_table()[k].1),
{
    lemma_marker_texts_distinct();
    let t = marker_table();
    assert forall|k: int| 0 <= k < t.len() implies language_of(#[trigger] t[k].0) == Some(t[k].1)
        && single_language_type(t[k].1) == t[k].2 by {
        if k == 0 {} else if k == 1 {} else if k == 2 {} else if k == 3 {} else if k == 4 {}
        else if k == 5 {} else if k == 6 {} else if k == 7 {} else {}
    }
    if language_of(path) is Some {
        if path == "Cargo.toml"@ {
            assert(t[0].0 == path);
        } else if path == "package.json"@ {
            assert(t[1].0 == path);
        } else if path == "pyproject.toml"@ {
            assert(t[2].0 == path);
        } else if path == "requirements.txt"@ {
            assert(t[3].0 == path);
        } else if path == "go.mod"@ {
            assert(t[4].0 == path);
        } else if path == "Gemfile"@ {
            assert(t[5].0 == path);
        } else if path == "pom.xml"@ {
            assert(t[6].0 == path);
        } else if path == "build.gradle"@ {
            assert(t[7].0 == path);
        } else {
            assert(t[8].0 == path);
        }
    }
}

/// A language is found exactly when some file marks it.
pub proof fn lemma_language_found_iff_marked(files: Seq<KeyFileInfo>, l: Seq<char>)
    ensures
        languages_found(files).contains(l) <==> exists|i: int|
            0 <= i < files.len() && language_of(#[trigger] files[i].path@) == Some(l),
    decreases files.len(),
{
    if files.len() > 0 {
        let init = files.drop_last();
        lemma_language_found_iff_marked(init, l);
        let prev = languages_found(init);
        let last = files[files.len() - 1];
        assert(files.last() == last);
        if exists|i: int| 0 <= i < init.len() && language_of(#[trigger] init[i].path@) == Some(l) {
            let i = choose|i: int| 0 <= i < init.len() && language_of(#[trigger] init[i].path@) == Some(l);
            assert(files[i] == init[i]);
        }
        if exists|i: int| 0 <= i < files.len() && language_of(#[trigger] files[i].path@) == Some(l) {
            let i = choose|i: int| 0 <= i < files.len() && language_of(#[trigger] files[i].path@) == Some(l);
            if i < init.len() {
                assert(files[i] == init[i]);
            }
        }
        match language_of(last.path@) {
            Some(x) => {
                if !prev.contains(x) {
                    assert(prev.push(x).contains(l) <==> (prev.contains(l) || x == l)) by {
                        if prev.push(x).contains(l) {
                            let a = choose|a: int| 0 <= a < prev.push(x).len() && prev.push(x)[a] == l;
                            if a < prev.len() {
                                assert(prev[a] == l);
                            }
                        }
                        if prev.contains(l) {
                            let a = choose|a: int| 0 <= a < prev.len() && prev[a] == l;
                            assert(prev.push(x)[a] == l);
                        }
                        if x == l {
                            assert(prev.push(x)[prev.len() as int] == l);
                        }
                    }
                }
            },
            None => {},
        }
    }
}

/// More files never drop or reorder the languages already found: those of the first
/// files come first, in their order, and the others follow.
pub proof fn lemma_languages_kept_in_order(files: Seq<KeyFileInfo>, more: Seq<KeyFileInfo>)
    ensures
        languages_found(files).len() <= languages_found(files + more).len(),
        languages_found(files + more).take(languages_found(files).len() as int) == languages_found(files),
    decreases more.len(),
{
    let lf = languages_found(files);
    if more.len() == 0 {
        assert(files + more =~= files);
        assert(lf.take(lf.len() as int) =~= lf);
    } else {
        lemma_languages_kept_in_order(files, more.drop_last());
        assert((files + more).drop_last() =~= files + more.drop_last());
        let prev = languages_found(files + more.drop_last());
        assert(prev.take(lf.len() as int) == lf);
        match language_of((files + more).last().path@) {
            Some(l) => if !prev.contains(l) {
                assert(prev.push(l).take(lf.len() as int) =~= prev.take(lf.len() as int));
            },
            None => {},
        }
    }
}

/// When every file that marks a language marks one of the same kind, and at least one
/// does, the project is of that kind: a lone `Gemfile` makes a Ruby project, a
/// `pom.xml` with a `build.gradle` a Java one, and so on for each file of `marker_table()`.
pub proof fn lemma_one_language_kind(files: Seq<KeyFileInfo>, t: ProjectType)
    requires
        exists|i: int, k: int|
            0 <= i < files.len() && 0 <= k < marker_table().len() && #[trigger] files[i].path@
                == #[trigger] marker_table()[k].0 && marker_table()[k].2 == t,
        forall|i: int, k: int|
            0 <= i < files.len() && 0 <= k < marker_table().len() && #[trigger] files[i].path@
                == #[trigger] marker_table()[k].0 ==> marker_table()[k].2 == t,
    ensures
        is_type_of(t, languages_found(files)),
        forall|r: ProjectType| is_type_of(r, languages_found(files)) ==> r == t,
{
    let tb = marker_table();
    lemma_marker_texts_distinct();
    lemma_marker_languages(Seq::empty());
    let (i0, k0) = choose|i: int, k: int|
        0 <= i < files.len() && 0 <= k < tb.len() && #[trigger] files[i].path@ == #[trigger] tb[k].0
            && tb[k].2 == t;
    let lang = tb[k0].1;
    let lf = languages_found(files);
    lemma_language_found_iff_marked(files, lang);
    assert(language_of(files[i0].path@) == Some(lang));
    assert(lf.contains(lang));
    assert forall|q: int| 0 <= q < lf.len() implies lf[q] == lang by {
        let l = lf[q];
        lemma_language_found_iff_marked(files, l);
        assert(lf.contains(l));
        let i = choose|i: int| 0 <= i < files.len() && language_of(#[trigger] files[i].path@) == Some(l);
        lemma_marker_languages(files[i].path@);
        let k = choose|k: int|
            0 <= k < tb.len() && #[trigger] tb[k].0 == files[i].path@ && language_of(files[i].path@)
                == Some(tb[k].1);
        assert(tb[k].2 == t);
        assert(tb[k].2 == tb[k0].2);
        assert(tb[k].1 == tb[k0].1) by {
            if k == 0 {} else if k == 1 {} else if k == 2 {} else if k == 3 {} else if k == 4 {}
            else if k == 5 {} else if k == 6 {} else if k == 7 {} else {}
        }
    }
    lemma_languages_distinct(files);
    let p = choose|p: int| 0 <= p < lf.len() && lf[p] == lang;
    if lf.len() > 1 {
        let other = if p == 0 { 1int } else { 0int };
        assert(lf[other] == lf[p]);
    }
    assert(lf.len() == 1);
    assert(single_language_type(lang) == t);
}

/// Files that mark two different languages make a mixed project that lists both, as a
/// Rails application with a `package.json`.
pub proof fn lemma_two_languages_mixed(files: Seq<KeyFileInfo>, i: int, j: int, ki: int, kj: int)
    requires
        0 <= i < files.len(),
        0 <= j < files.len(),
        0 <= ki < marker_table().len(),
        0 <= kj < marker_table().len(),
        files[i].path@ == marker_table()[ki].0,
        files[j].path@ == marker_table()[kj].0,
        marker_table()[ki].1 != marker_table()[kj].1,
    ensures
        forall|r: ProjectType|
            is_type_of(r, languages_found(files)) ==> (r matches ProjectType::Mixed(v) && views(v@).contains(
                marker_table()[ki].1,
            ) && views(v@).contains(marker_table()[kj].1)),
{
    let tb = marker_table();
    lemma_marker_languages(Seq::empty());
    assert(language_of(files[i].path@) == Some(tb[ki].1));
    assert(language_of(files[j].path@) == Some(tb[kj].1));
    lemma_language_found_iff_marked(files, tb[ki].1);
    lemma_language_found_iff_marked(files, tb[kj].1);
    let lf = languages_found(files);
    assert(lf.contains(tb[ki].1) && lf.contains(tb[kj].1));
    let a = choose|a: int| 0 <= a < lf.len() && lf[a] == tb[ki].1;
    let b = choose|b: int| 0 <= b < lf.len() && lf[b] == tb[kj].1;
    assert(a != b);
    assert(lf.len() >= 2);
}

/// A key file whose kind is `Manifest`, `Config` or `Readme` is listed, and no other is:
/// the listed files are those files, in their order.
pub proof fn lemma_listed_files_by_kind(files: Seq<KeyFileInfo>)
    ensures
        listed_files(files) == files.filter(
            |f: KeyFileInfo| f.file_kind@ == "Manifest"@ || f.file_kind@ == "Config"@ || f.file_kind@ == "Readme"@,
        ),
    decreases files.len(),
{
    reveal(Seq::filter);
    if files.len() > 0 {
        lemma_listed_files_by_kind(files.drop_last());
    }
}

/// `part` stands in `s` from position `p` on.
pub open spec fn occurs_at(s: Seq<char>, part: Seq<char>, p: int) -> bool {
    0 <= p && p + part.len() <= s.len() && s.subrange(p, p + part.len()) == part
}

/// The lines of a list of files hold the line of each of them.
proof fn lemma_file_lines_hold(files: Seq<KeyFileInfo>, k: int)
    requires
        0 <= k < files.len(),
    ensures
        exists|p: int| #[trigger] occurs_at(file_lines(files), file_line(files[k]), p),
    decreases files.len(),
{
    let init = files.drop_last();
    let whole = file_lines(files);
    let line = file_line(files[k]);
    if k == files.len() - 1 {
        let p = file_lines(init).len() as int;
        assert(whole.subrange(p, p + line.len()) =~= line);
        assert(occurs_at(whole, line, p));
    } else {
        lemma_file_lines_hold(init, k);
        assert(init[k] == files[k]);
        let p = choose|p: int| #[trigger] occurs_at(file_lines(init), line, p);
        assert(whole.subrange(p, p + line.len()) =~= file_lines(init).subrange(p, p + line.len()));
        assert(occurs_at(whole, line, p));
    }
}

/// Every key file whose kind is `Manifest`, `Config` or `Readme` has its line, with its
/// path, in the summary.
pub proof fn lemma_summary_lists_file(
    label: Seq<char>,
    files: Seq<KeyFileInfo>,
    tasks: Seq<ExistingTaskSummary>,
    i: int,
)
    requires
        0 <= i < files.len(),
        files[i].file_kind@ == "Manifest"@ || files[i].file_kind@ == "Config"@ || files[i].file_kind@
            == "Readme"@,
    ensures
        ({
            let s = summary_text(label, files, tasks);
            let line = "- `"@ + files[i].path@ + "`"@;
            exists|p: int| #[trigger] occurs_at(s, line, p)
        }),
{
    let pred = |f: KeyFileInfo| f.file_kind@ == "Manifest"@ || f.file_kind@ == "Config"@ || f.file_kind@ == "Readme"@;
    lemma_listed_files_by_kind(files);
    let listed = listed_files(files);
    assert(files.filter(pred).contains(files[i])) by {
        files.lemma_filter_contains(pred, i);
    }
    let k = choose|k: int| 0 <= k < listed.len() && listed[k] == files[i];
    lemma_file_lines_hold(listed, k);
    let fl = file_line(files[i]);
    let q = choose|q: int| #[trigger] occurs_at(file_lines(listed), fl, q);
    let s = summary_text(label, files, tasks);
    let head = "## Proje Tipi\n"@ + label + "\n\n"@ + "## Anahtar Dosyalar\n"@;
    let line = "- `"@ + files[i].path@ + "`"@;
    let p = head.len() + q;
    assert(s == head + file_lines(listed) + snippet_blocks(first_three(manifest_files_of(files))) + "\n\n"@
        + tasks_section(tasks));
    assert(fl.subrange(0, line.len() as int) =~= line);
    assert(s.subrange(p, p + line.len()) =~= line);
    assert(occurs_at(s, line, p));
}

/// Without a file that marks a language the project's kind is unknown, and with files of
/// two or more languages it is mixed and lists exactly the languages found.
pub proof fn lemma_unknown_and_mixed_kinds(files: Seq<KeyFileInfo>)
    ensures
        (forall|i: int, k: int|
            0 <= i < files.len() && 0 <= k < marker_table().len() ==> #[trigger] files[i].path@
                != #[trigger] marker_table()[k].0) ==> is_type_of(ProjectType::Unknown, languages_found(files))
            && forall|r: ProjectType| is_type_of(r, languages_found(files)) ==> r == ProjectType::Unknown,
        languages_found(files).len() >= 2 ==> forall|r: ProjectType|
            is_type_of(r, languages_found(files)) ==> (r matches ProjectType::Mixed(v) && views(v@)
                == languages_found(files)),
{
    let lf = languages_found(files);
    if forall|i: int, k: int|
        0 <= i < files.len() && 0 <= k < marker_table().len() ==> #[trigger] files[i].path@
            != #[trigger] marker_table()[k].0 {
        if lf.len() > 0 {
            let l = lf[0];
            lemma_language_found_iff_marked(files, l);
            assert(lf.contains(l));
            let i = choose|i: int| 0 <= i < files.len() && language_of(#[trigger] files[i].path@) == Some(l);
            lemma_marker_languages(files[i].path@);
            let k = choose|k: int|
                0 <= k < marker_table().len() && #[trigger] marker_table()[k].0 == files[i].path@
                    && language_of(files[i].path@) == Some(marker_table()[k].1);
            assert(files[i].path@ != marker_table()[k].0);
        }
    }
}

/// Every task on the board has its line, with its status and title, in the summary.
pub proof fn lemma_summary_lists_task(
    label: Seq<char>,
    files: Seq<KeyFileInfo>,
    tasks: Seq<ExistingTaskSummary>,
    i: int,
)
    requires
        0 <= i < tasks.len(),
    ensures
        ({
            let s = summary_text(label, files, tasks);
            exists|p: int| #[trigger] occurs_at(s, "- ["@ + tasks[i].status@ + "] "@ + tasks[i].title@ + "\n"@, p)
        }),
{
    lemma_task_lines_hold(tasks, i);
    let tl = task_line(tasks[i]);
    let q = choose|q: int| #[trigger] occurs_at(task_lines(tasks), tl, q);
    let s = summary_text(label, files, tasks);
    let head = "## Proje Tipi\n"@ + label;
    let with_files = if listed_files(files).len() > 0 {
        head + "\n\n"@ + key_files_section(files)
    } else {
        head
    };
    let title = "## Mevcut Görevler (Yeni görev oluştururken duplikasyondan kaçın)\n"@;
    let pre = with_files + "\n\n"@ + title;
    assert(s == pre + task_lines(tasks));
    let p = pre.len() + q;
    assert(s.subrange(p, p + tl.len()) =~= task_lines(tasks).subrange(q, q + tl.len()));
    assert(occurs_at(s, tl, p));
}

/// The lines of a list of tasks hold the line of each of them.
proof fn lemma_task_lines_hold(tasks: Seq<ExistingTaskSummary>, k: int)
    requires
        0 <= k < tasks.len(),
    ensures
        exists|p: int| #[trigger] occurs_at(task_lines(tasks), task_line(tasks[k]), p),
    decreases tasks.len(),
{
    let init = tasks.drop_last();
    let whole = task_lines(tasks);
    let line = task_line(tasks[k]);
    if k == tasks.len() - 1 {
        let p = task_lines(init).len() as int;
        assert(whole.subrange(p, p + line.len()) =~= line);
        assert(occurs_at(whole, line, p));
    } else {
        lemma_task_lines_hold(init, k);
        assert(init[k] == tasks[k]);
        let p = choose|p: int| #[trigger] occurs_at(task_lines(init), line, p);
        assert(whole.subrange(p, p + line.len()) =~= task_lines(init).subrange(p, p + line.len()));
        assert(occurs_at(whole, line, p));
    }
}

/// With no task on the board the summary ends by saying so.
pub proof fn lemma_summary_without_tasks(label: Seq<char>, files: Seq<KeyFileInfo>, tasks: Seq<ExistingTaskSummary>)
    requires
        tasks.len() == 0,
    ensures
        ({
            let s = summary_text(label, files, tasks);
            let tail = "\n\n"@ + "## Mevcut Görevler\nHenüz görev yok."@;
            s.len() >= tail.len() && s.subrange(s.len() - tail.len(), s.len() as int) == tail
        }),
{
    let s = summary_text(label, files, tasks);
    let tail = "\n\n"@ + "## Mevcut Görevler\nHenüz görev yok."@;
    assert(s.subrange(s.len() - tail.len(), s.len() as int) =~= tail);
}

/// The manifests are the files of kind `Manifest`, in their order.
pub proof fn lemma_manifests_by_kind(files: Seq<KeyFileInfo>)
    ensures
        manifest_files_of(files) == files.filter(|f: KeyFileInfo| f.file_kind@ == "Manifest"@),
    decreases files.len(),
{
    reveal(Seq::filter);
    if files.len() > 0 {
        lemma_manifests_by_kind(files.drop_last());
    }
}

/// The manifests of the first files come first among those of all the files.
proof fn lemma_manifests_prefix(files: Seq<KeyFileInfo>, more: Seq<KeyFileInfo>)
    ensures
        manifest_files_of(files).len() <= manifest_files_of(files + more).len(),
        manifest_files_of(files + more).take(manifest_files_of(files).len() as int) == manifest_files_of(files),
    decreases more.len(),
{
    let mf = manifest_files_of(files);
    if more.len() == 0 {
        assert(files + more =~= files);
        assert(mf.take(mf.len() as int) =~= mf);
    } else {
        lemma_manifests_prefix(files, more.drop_last());
        assert((files + more).drop_last() =~= files + more.drop_last());
        let prev = manifest_files_of(files + more.drop_last());
        if (files + more).last().file_kind@ == "Manifest"@ {
            assert(prev.push((files + more).last()).take(mf.len() as int) =~= prev.take(mf.len() as int));
        }
    }
}

/// The snippet blocks of a list of files hold the block of each of them.
proof fn lemma_snippet_blocks_hold(files: Seq<KeyFileInfo>, k: int)
    requires
        0 <= k < files.len(),
    ensures
        exists|p: int| #[trigger] occurs_at(snippet_blocks(files), snippet_block(files[k]), p),
    decreases files.len(),
{
    let init = files.drop_last();
    let whole = snippet_blocks(files);
    let block = snippet_block(files[k]);
    if k == files.len() - 1 {
        let p = snippet_blocks(init).len() as int;
        assert(whole.subrange(p, p + block.len()) =~= block);
        assert(occurs_at(whole, block, p));
    } else {
        lemma_snippet_blocks_hold(init, k);
        assert(init[k] == files[k]);
        let p = choose|p: int| #[trigger] occurs_at(snippet_blocks(init), block, p);
        assert(whole.subrange(p, p + block.len()) =~= snippet_blocks(init).subrange(p, p + block.len()));
        assert(occurs_at(whole, block, p));
    }
}

/// A manifest with a snippet, among the first three manifests, has its snippet in the
/// summary as a fenced block under its path.
#[verifier::rlimit(40)]
pub proof fn lemma_summary_shows_manifest_snippet(
    label: Seq<char>,
    files: Seq<KeyFileInfo>,
    tasks: Seq<ExistingTaskSummary>,
    i: int,
    snippet: String,
)
    requires
        0 <= i < files.len(),
        files[i].file_kind@ == "Manifest"@,
        files[i].snippet == Some(snippet),
        files.take(i).filter(|f: KeyFileInfo| f.file_kind@ == "Manifest"@).len() < 3,
    ensures
        ({
            let s = summary_text(label, files, tasks);
            exists|p: int| #[trigger] occurs_at(s, "\n### "@ + files[i].path@ + "\n```\n"@ + snippet@ + "\n```\n"@, p)
        }),
{
    let a = files.take(i + 1);
    let rest = files.skip(i + 1);
    assert(a + rest =~= files);
    lemma_manifests_prefix(a, rest);
    lemma_manifests_by_kind(files.take(i));
    assert(a.drop_last() =~= files.take(i));
    assert(a.last() == files[i]);
    let k = manifest_files_of(files.take(i)).len() as int;
    let mf = manifest_files_of(files);
    assert(manifest_files_of(a) == manifest_files_of(files.take(i)).push(files[i]));
    assert(mf.take(k + 1) == manifest_files_of(a));
    assert(mf[k] == files[i]) by {
        assert(mf.take(k + 1)[k] == mf[k]);
    }
    let ft = first_three(mf);
    assert(ft[k] == files[i]);
    lemma_snippet_blocks_hold(ft, k);
    let block = snippet_block(files[i]);
    let q = choose|q: int| #[trigger] occurs_at(snippet_blocks(ft), block, q);
    let s = summary_text(label, files, tasks);
    let listed = listed_files(files);
    lemma_listed_files_by_kind(files);
    let pred = |f: KeyFileInfo| f.file_kind@ == "Manifest"@ || f.file_kind@ == "Config"@ || f.file_kind@ == "Readme"@;
    files.lemma_filter_contains(pred, i);
    assert(listed.len() > 0);
    let pre = "## Proje Tipi\n"@ + label + "\n\n"@ + "## Anahtar Dosyalar\n"@ + file_lines(listed);
    assert(s == pre + snippet_blocks(ft) + "\n\n"@ + tasks_section(tasks));
    let p = pre.len() + q;
    assert(s.subrange(p, p + block.len()) =~= snippet_blocks(ft).subrange(q, q + block.len()));
    assert(occurs_at(s, block, p));
}

} // verus!
