use raro_kernel::context::{
    breaker_reason, context_block, evaluate_output, is_context_drought, model_name, parent_signature,
    provision_tools, thinking_level, upstream_from_json, upstream_text, REASON_PROTOCOL_VIOLATION,
};
use raro_kernel::models::{ModelVariant, ThoughtSignatureStore};
use raro_kernel::text::{contains_str, ends_with_str, starts_with_str};

fn sorted(mut v: Vec<String>) -> Vec<String> {
    v.sort();
    v
}

#[test]
fn substring_predicates() {
    assert!(contains_str("abcde", "cd"));
    assert!(contains_str("abc", ""));
    assert!(!contains_str("abc", "abcd"));
    assert!(!contains_str("abc", "ac"));
    assert!(starts_with_str("research_q1", "research_"));
    assert!(!starts_with_str("q_research", "research_"));
    assert!(ends_with_str("plot.png", ".png"));
    assert!(!ends_with_str("png", ".png"));
    assert!(contains_str("héllo wörld", "ö"));
}

#[test]
fn tools_for_a_plain_worker() {
    let declared = vec!["custom".to_string(), "read_file".to_string()];
    let tools = provision_tools("summarizer", &declared, false);
    assert_eq!(sorted(tools), vec!["custom", "list_files", "read_file"]);
}

#[test]
fn tools_by_identity() {
    let tools = sorted(provision_tools("research_q1", &vec![], false));
    assert_eq!(tools, vec!["list_files", "read_file", "web_search"]);
    let tools = sorted(provision_tools("coder_main", &vec![], false));
    assert_eq!(tools, vec!["execute_python", "list_files", "read_file", "write_file"]);
    let tools = sorted(provision_tools("master_planner", &vec![], false));
    assert_eq!(
        tools,
        vec!["execute_python", "list_files", "read_file", "web_search", "write_file"]
    );
    let tools = sorted(provision_tools("plain", &vec![], true));
    assert_eq!(tools, vec!["execute_python", "list_files", "read_file"]);
}

#[test]
fn drought_check() {
    let null = vec!["[STATUS: NULL]".to_string()];
    assert!(is_context_drought(1, &null, 0));
    assert!(!is_context_drought(1, &null, 1));
    assert!(is_context_drought(1, &vec![], 3));
    assert!(!is_context_drought(0, &vec![], 0));
    let mixed = vec!["[STATUS: NULL]".to_string(), "real text".to_string()];
    assert!(!is_context_drought(2, &mixed, 0));
}

#[test]
fn protocol_violation_for_research_without_search() {
    let v = evaluate_output("research_q1", "I found some things.");
    assert!(v.protocol_violation);
    assert!(!v.semantic_null);
    let reason = breaker_reason(true, v).unwrap();
    assert!(reason.contains("Protocol Violation"));
    assert_eq!(reason, REASON_PROTOCOL_VIOLATION);
    let v = evaluate_output("research_q1", "used web_search twice");
    assert!(!v.protocol_violation);
    assert!(breaker_reason(true, v).is_none());
    let v = evaluate_output("research_q1", "[BYPASS: offline]");
    assert!(v.bypassed);
    assert!(!v.protocol_violation);
    let v = evaluate_output("analyze_sales", "no code ran");
    assert!(v.protocol_violation);
    let v = evaluate_output("coder_x", "ran execute_python");
    assert!(!v.protocol_violation);
}

#[test]
fn semantic_null_and_failure_pause() {
    let v = evaluate_output("writer", "[STATUS: NULL]");
    assert!(v.semantic_null);
    assert!(breaker_reason(true, v).unwrap().starts_with("Semantic Null"));
    let v = evaluate_output("writer", "fine");
    assert!(breaker_reason(false, v).unwrap().starts_with("Agent Failure"));
}

#[test]
fn parent_signature_is_first_non_empty_in_declared_order() {
    let mut store = ThoughtSignatureStore::new();
    store.set("b".to_string(), "".to_string());
    store.set("c".to_string(), "sig-c".to_string());
    store.set("d".to_string(), "sig-d".to_string());
    let deps = vec!["a".to_string(), "b".to_string(), "c".to_string(), "d".to_string()];
    assert_eq!(parent_signature(&deps, &store), Some("sig-c".to_string()));
    assert_eq!(parent_signature(&vec!["a".to_string()], &store), None);
    store.set("c".to_string(), "sig-c2".to_string());
    assert_eq!(store.get("c"), Some("sig-c2".to_string()));
    assert_eq!(store.get("d"), Some("sig-d".to_string()));
}

#[test]
fn model_mapping_and_blocks() {
    assert_eq!(model_name(ModelVariant::GeminiFlash), "gemini-3-flash");
    assert_eq!(model_name(ModelVariant::GeminiPro), "gemini-3-pro");
    assert_eq!(model_name(ModelVariant::GeminiDeepThink), "gemini-3-deep-think");
    assert_eq!(thinking_level(ModelVariant::GeminiDeepThink), Some(5));
    assert_eq!(thinking_level(ModelVariant::GeminiPro), None);
    assert_eq!(context_block("a", "hello"), "=== CONTEXT FROM AGENT a ===\nhello\n");
    assert_eq!(upstream_text(Some("r".to_string()), Some("o".to_string())), "r");
    assert_eq!(upstream_text(None, Some("o".to_string())), "o");
    assert_eq!(upstream_text(None, None), "No text output");
}

#[test]
fn upstream_artifact_from_json() {
    let a = upstream_from_json("root", b"{\"result\":\"r\",\"output\":\"o\",\"files_generated\":[\"a.csv\",\"a.csv\",\"b.png\",7]}");
    assert_eq!(a.agent_id, "root");
    assert_eq!(a.text, "r");
    assert_eq!(a.files, vec!["a.csv", "b.png"]);
    let b = upstream_from_json("x", b"{\"result\":5,\"output\":\"o\"}");
    assert_eq!(b.text, "o");
    assert!(b.files.is_empty());
    let c = upstream_from_json("x", b"not json");
    assert_eq!(c.text, "No text output");
    let d = upstream_from_json("x", b"{\"files_generated\":\"nope\"}");
    assert_eq!(d.text, "No text output");
    assert!(d.files.is_empty());
}
