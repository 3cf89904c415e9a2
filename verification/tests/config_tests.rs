use jj_ai::config::parse_u16;
use jj_ai::config::JjaiConfig;
use jj_ai::error::JjaiConfigError;

#[test]
fn from_values_missing_api_key_returns_error() {
    let result = JjaiConfig::from_values(None, None, None);

    assert!(result.is_err());
    assert!(matches!(result.unwrap_err(), JjaiConfigError::MissingApiKey));
}

#[test]
fn from_values_with_api_key_uses_defaults() {
    let config = JjaiConfig::from_values(Some("test-key".to_string()), None, None)
        .expect("should succeed with API key set");

    assert_eq!(config.api_key, "test-key");
    assert_eq!(config.model, "openai/gpt-4o-mini");
    assert_eq!(config.max_tokens, 256);
}

#[test]
fn from_values_custom_model_and_tokens() {
    let config = JjaiConfig::from_values(
        Some("test-key".to_string()),
        Some("example/bigger-model".to_string()),
        Some("512".to_string()),
    )
    .expect("should succeed");

    assert_eq!(config.model, "example/bigger-model");
    assert_eq!(config.max_tokens, 512);
}

#[test]
fn from_values_invalid_max_tokens_uses_default() {
    let config = JjaiConfig::from_values(
        Some("test-key".to_string()),
        None,
        Some("not-a-number".to_string()),
    )
    .expect("should succeed");

    assert_eq!(config.max_tokens, 256);
}

#[test]
fn parse_u16_plain_and_signed() {
    assert_eq!(parse_u16("0"), Some(0));
    assert_eq!(parse_u16("256"), Some(256));
    assert_eq!(parse_u16("+42"), Some(42));
    assert_eq!(parse_u16("65535"), Some(65535));
}

#[test]
fn parse_u16_rejects_garbage() {
    assert_eq!(parse_u16(""), None);
    assert_eq!(parse_u16("+"), None);
    assert_eq!(parse_u16("12a"), None);
    assert_eq!(parse_u16("-1"), None);
    assert_eq!(parse_u16("65536"), None);
    assert_eq!(parse_u16("999999999999"), None);
}
