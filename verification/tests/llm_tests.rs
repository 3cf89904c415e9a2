use jj_ai::llm::build_user_prompt;
use jj_ai::llm::description_from_response;
use jj_ai::llm::system_prompt;
use jj_ai::llm::truncate_diff;
use jj_ai::llm::MessageStyle;
use jj_ai::llm::MAX_DIFF_CHARS;

#[test]
fn truncate_diff_short_input_unchanged() {
    let short = "hello world";
    let result = truncate_diff(short, MAX_DIFF_CHARS);
    assert_eq!(result, short);
}

#[test]
fn truncate_diff_exact_limit_unchanged() {
    let exact: String = "a".repeat(MAX_DIFF_CHARS);
    let result = truncate_diff(&exact, MAX_DIFF_CHARS);
    assert_eq!(result, exact);
}

#[test]
fn truncate_diff_over_limit_truncates() {
    let over: String = "x".repeat(MAX_DIFF_CHARS + 100);
    let result = truncate_diff(&over, MAX_DIFF_CHARS);

    assert!(result.starts_with(&"x".repeat(MAX_DIFF_CHARS)));
    assert!(result.contains("...\n[diff truncated, 100 more bytes]"));
}

#[test]
fn truncate_diff_length_is_budget_plus_marker() {
    let over: String = "y".repeat(50);
    let result = truncate_diff(&over, 20);
    let marker = "...\n[diff truncated, 30 more bytes]";
    assert_eq!(result.len(), 20 + marker.len());
    assert_eq!(&result[..20], &over[..20]);
    assert_eq!(&result[20..], marker);
}

#[test]
fn user_prompt_wraps_diff_in_fence() {
    let p = build_user_prompt("+one line");
    assert_eq!(
        p,
        "Generate a commit description for this diff:\n\n```\n+one line\n```"
    );
}

#[test]
fn system_prompt_styles_extend_base() {
    let generic = system_prompt(MessageStyle::Generic);
    let conventional = system_prompt(MessageStyle::Conventional);
    let emoji = system_prompt(MessageStyle::Emoji);
    assert!(generic.starts_with("You are an assistant"));
    assert!(conventional.starts_with(&generic));
    assert!(conventional.contains("conventional-commits"));
    assert!(emoji.starts_with(&generic));
    assert!(emoji.contains("emoji"));
}

#[test]
fn response_message_is_trimmed() {
    let r = description_from_response(Some("  tidy up parser  \n".to_string()));
    assert_eq!(r.unwrap(), "tidy up parser");
}

#[test]
fn response_without_message_fails() {
    let r = description_from_response(None);
    assert!(matches!(r, Err(jj_ai::llm::LlmError::Api(_))));
}
