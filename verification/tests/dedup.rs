use std::collections::HashSet;

use openclaw::dedup::{is_stop_word, DuplicationChecker, ExistingTask, TaskOverlap};
use openclaw::planner_types::{OcPlanTask, OcTaskComplexity};

/// A warning as the planner reports it: new title, similar title, score, existing status.
type Warning = (String, String, f32, String);

fn make_oc_task(title: &str, description: &str) -> OcPlanTask {
    OcPlanTask {
        id: uuid::Uuid::new_v4().as_u128(),
        plan_id: uuid::Uuid::new_v4().as_u128(),
        issue_id: None,
        title: title.to_string(),
        description: description.to_string(),
        prompt: None,
        estimated_complexity: OcTaskComplexity::Low,
        depends_on: vec![],
        order_index: 0,
        created_at: "2024-01-01T00:00:00Z".to_string(),
    }
}

fn make_existing(title: &str, status: &str) -> ExistingTask {
    ExistingTask {
        title: title.to_string(),
        status: status.to_string(),
    }
}

fn score(o: &TaskOverlap) -> f32 {
    o.shared as f32 / (o.shared + o.new_only + o.existing_only) as f32
}

/// The planner's duplicate check: Jaccard scores at or above the threshold, best first.
fn check(new: &[OcPlanTask], existing: &[ExistingTask], threshold: f32) -> Vec<Warning> {
    let mut warnings: Vec<Warning> = DuplicationChecker::overlaps(new, existing)
        .iter()
        .filter(|o| score(o) >= threshold)
        .map(|o| {
            (
                new[o.new_index].title.clone(),
                existing[o.existing_index].title.clone(),
                score(o),
                existing[o.existing_index].status.clone(),
            )
        })
        .collect();
    warnings.sort_by(|a, b| b.2.partial_cmp(&a.2).unwrap());
    warnings
}

fn token_set(text: &str) -> HashSet<String> {
    DuplicationChecker::tokenize(text).into_iter().collect()
}

#[test]
fn test_exact_duplicate_detected() {
    let new = vec![make_oc_task("Auth sistemi ekle", "JWT tabanlı")];
    let existing = vec![make_existing("Auth sistemi ekle", "todo")];

    let warnings = check(&new, &existing, 0.3);
    assert!(!warnings.is_empty());
    assert_eq!(warnings[0].1, "Auth sistemi ekle");
    assert!(warnings[0].2 > 0.5);
}

#[test]
fn test_similar_detected_above_threshold() {
    let new = vec![make_oc_task("Kullanıcı kimlik doğrulama", "login logout")];
    let existing = vec![make_existing("Kullanıcı giriş sistemi", "inprogress")];

    let warnings = check(&new, &existing, 0.1);
    assert!(!warnings.is_empty());
}

#[test]
fn test_unrelated_no_warning() {
    let new = vec![make_oc_task("Ödeme sistemi", "stripe entegrasyon")];
    let existing = vec![make_existing("CSS düzenlemesi", "todo")];

    let warnings = check(&new, &existing, 0.3);
    assert!(warnings.is_empty());
}

#[test]
fn test_empty_existing_no_warnings() {
    let new = vec![make_oc_task("API yazılacak", "endpoint ekle")];
    let warnings = check(&new, &[], 0.3);
    assert!(warnings.is_empty());
}

#[test]
fn test_warnings_sorted_by_score_desc() {
    let new = vec![make_oc_task("Auth ve login sistemi", "kimlik doğrulama")];
    let existing = vec![
        make_existing("Login sayfası", "todo"),
        make_existing("Auth sistemi ve kimlik doğrulama", "todo"),
    ];

    let warnings = check(&new, &existing, 0.1);
    if warnings.len() >= 2 {
        assert!(warnings[0].2 >= warnings[1].2);
    }
}

#[test]
fn test_stop_words_filtered() {
    let new = vec![make_oc_task("ve bir şey", "test")];
    let existing = vec![make_existing("ve bir başka şey", "todo")];
    let warnings = check(&new, &existing, 0.5);
    assert!(warnings.is_empty());
}

#[test]
fn test_jaccard_calculation() {
    let (shared, a_only, b_only) = DuplicationChecker::token_overlap("auth login token", "auth login session");
    let score = shared as f32 / (shared + a_only + b_only) as f32;
    assert!((score - 0.5).abs() < 0.01);
}

#[test]
fn tokenize_lowercases_splits_and_filters() {
    let expected: HashSet<String> = ["auth", "sistemi", "jwt", "tabanlı"].iter().map(|s| s.to_string()).collect();
    assert_eq!(token_set("Auth-sistemi, JWT tabanlı ve bir db"), expected);
    let tokens = DuplicationChecker::tokenize("Login login LOGIN");
    assert_eq!(tokens, vec!["login".to_string()]);
    assert!(DuplicationChecker::tokenize("").is_empty());
    assert!(DuplicationChecker::tokenize("a1b2 c3 ab").is_empty());
}

#[test]
fn tokenize_counts_bytes_not_chars() {
    // "şu" is two characters but three UTF-8 bytes, so it counts as a token.
    assert_eq!(DuplicationChecker::tokenize("şu"), vec!["şu".to_string()]);
    assert!(DuplicationChecker::tokenize("ab").is_empty());
}

#[test]
fn stop_words() {
    assert!(is_stop_word("için"));
    assert!(is_stop_word("the"));
    assert!(!is_stop_word("login"));
    assert!(!is_stop_word("The"));
}

#[test]
fn overlap_is_symmetric() {
    let (s1, a1, b1) = DuplicationChecker::token_overlap("auth login token x", "auth session");
    let (s2, a2, b2) = DuplicationChecker::token_overlap("auth session", "auth login token x");
    assert_eq!((s1, a1, b1), (1, 2, 1));
    assert_eq!((s2, a2, b2), (s1, b1, a1));
}

#[test]
fn overlap_with_itself() {
    let (s, a, b) = DuplicationChecker::token_overlap("Auth sistemi ekle", "auth SISTEMI ekle");
    assert_eq!((s, a, b), (3, 0, 0));
}

#[test]
fn overlaps_skip_empty_token_sets_and_keep_order() {
    let new = vec![make_oc_task("ve", "bu"), make_oc_task("Login page", "form")];
    let existing = vec![make_existing("login", "todo"), make_existing("a b", "todo"), make_existing("form page", "done")];
    let overlaps = DuplicationChecker::overlaps(&new, &existing);
    let seen: Vec<(usize, usize, usize, usize, usize)> = overlaps
        .iter()
        .map(|o| (o.new_index, o.existing_index, o.shared, o.new_only, o.existing_only))
        .collect();
    assert_eq!(seen, vec![(1, 0, 1, 2, 0), (1, 2, 2, 1, 0)]);
}
