use openclaw::llm::{AnthropicLlmPlanner, LlmTask, PROMPT_CONTEXT_HEADING, PROMPT_INTRO, PROMPT_REQUEST_HEADING, PROMPT_RULES};
use openclaw::planner_types::OcTaskComplexity;

fn task_with(complexity: &str) -> LlmTask {
    LlmTask {
        title: "T".into(),
        description: "D".into(),
        complexity: complexity.into(),
        prompt: None,
        depends_on: vec![],
    }
}

#[test]
fn test_extract_json_plain() {
    let raw = r#"{"tasks":[{"title":"T","description":"D","complexity":"low","depends_on":[]}]}"#;
    let extracted = AnthropicLlmPlanner::extract_json(raw);
    assert!(extracted.starts_with('{'));
    assert_eq!(extracted, raw);
}

#[test]
fn test_extract_json_code_block() {
    let raw = "Here is the result:\n```json\n{\"tasks\":[]}\n```\n";
    let extracted = AnthropicLlmPlanner::extract_json(raw);
    assert_eq!(extracted, "{\"tasks\":[]}");
}

#[test]
fn test_complexity_parsing() {
    let task = LlmTask {
        title: "T".into(),
        description: "D".into(),
        complexity: "HIGH".into(),
        prompt: None,
        depends_on: vec![],
    };
    assert_eq!(task.to_complexity(), OcTaskComplexity::High);
}

#[test]
fn test_build_prompt_includes_context() {
    let prompt = AnthropicLlmPlanner::build_prompt("Auth sistemi ekle", Some("## Proje Tipi\nRust"));
    assert!(prompt.contains("Auth sistemi ekle"));
    assert!(prompt.contains("Rust"));
    assert!(prompt.contains("JSON"));
}

#[test]
fn complexity_defaults_to_medium() {
    assert_eq!(task_with("low").to_complexity(), OcTaskComplexity::Low);
    assert_eq!(task_with("Medium").to_complexity(), OcTaskComplexity::Medium);
    assert_eq!(task_with("huge").to_complexity(), OcTaskComplexity::Medium);
    assert_eq!(task_with("").to_complexity(), OcTaskComplexity::Medium);
}

#[test]
fn prompt_exact_layout() {
    let with = AnthropicLlmPlanner::build_prompt("Do X", Some("ctx"));
    let expected = format!("{}{}ctx\n\n{}Do X{}", PROMPT_INTRO, PROMPT_CONTEXT_HEADING, PROMPT_REQUEST_HEADING, PROMPT_RULES);
    assert_eq!(with, expected);
    let blank = AnthropicLlmPlanner::build_prompt("Do X", Some("  \n "));
    let none = AnthropicLlmPlanner::build_prompt("Do X", None);
    assert_eq!(blank, none);
    assert_eq!(none, format!("{}{}Do X{}", PROMPT_INTRO, PROMPT_REQUEST_HEADING, PROMPT_RULES));
}

#[test]
fn extract_json_plain_fence_and_braces() {
    assert_eq!(AnthropicLlmPlanner::extract_json("```\n[1, 2]\n```"), "[1, 2]");
    assert_eq!(AnthropicLlmPlanner::extract_json("Sure! {\"a\": {\"b\": 1}} done"), "{\"a\": {\"b\": 1}}");
    assert_eq!(AnthropicLlmPlanner::extract_json("  no json here \n"), "no json here");
}

#[test]
fn planner_keeps_its_key() {
    let p = AnthropicLlmPlanner::new("SECRET-REDACTED".to_string());
    assert_eq!(p.api_key, "SECRET-REDACTED");
}

#[test]
fn extract_json_without_a_brace_span_returns_the_text() {
    assert_eq!(AnthropicLlmPlanner::extract_json(" } then { "), "} then {");
    assert_eq!(AnthropicLlmPlanner::extract_json("}{"), "}{");
    assert_eq!(AnthropicLlmPlanner::extract_json("x {\"a\":1} y"), "{\"a\":1}");
    assert_eq!(AnthropicLlmPlanner::extract_json("```json\n} {\n```"), "} {");
}
