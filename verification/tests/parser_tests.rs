use token_monitor::parser::{micros_of_decimal, parse_jsonl_line, parse_settings, ParserError};

#[test]
fn test_parse_settings() {
    let content = r#"{"ANTHROPIC_AUTH_TOKEN":"sk-test","ANTHROPIC_BASE_URL":"https://api"}"#;
    let settings = parse_settings(content).expect("parse settings");

    assert_eq!(settings.api_key, "sk-test");
    assert_eq!(settings.base_url, Some("https://api".to_string()));
}

#[test]
fn test_parse_jsonl_line() {
    let line = r#"{"id":"msg_1","session_id":"sess_1","model":"model-a","created_at":"2026-01-08T00:00:00Z","usage":{"input_tokens":10,"output_tokens":5,"cost_usd":0.01}}"#;
    let record = parse_jsonl_line(line).expect("parse line").expect("record");

    assert_eq!(record.session_id, "sess_1");
    assert_eq!(record.message_id, "msg_1");
    assert_eq!(record.model, "model-a");
    assert_eq!(record.usage.input_tokens, 10);
}

#[test]
fn test_parse_settings_and_jsonl() {
    let settings_content = r#"{"ANTHROPIC_AUTH_TOKEN":"sk-integration"}"#;
    let settings = parse_settings(settings_content).expect("settings");
    assert_eq!(settings.api_key, "sk-integration");

    let line = r#"{"id":"msg_int","session_id":"sess_int","model":"model-a","usage":{"input_tokens":1,"output_tokens":2}}"#;
    let record = parse_jsonl_line(line).expect("line").expect("record");
    assert_eq!(record.model, "model-a");
}

#[test]
fn test_parse_settings_nested_env() {
    let content = r#"{"env":{"anthropic_auth_token":"sk-nested"}}"#;
    let settings = parse_settings(content).expect("parse settings");
    assert_eq!(settings.api_key, "sk-nested");
    assert_eq!(settings.base_url, None);
}

#[test]
fn test_parse_settings_missing_credential() {
    let content = r#"{"env":{"OTHER":"x"},"name":"no token here"}"#;
    match parse_settings(content) {
        Err(ParserError::MissingApiKey) => {}
        other => panic!("expected MissingApiKey, got {:?}", other),
    }
}

#[test]
fn test_parse_settings_invalid_json() {
    match parse_settings("{not json") {
        Err(ParserError::InvalidJson) => {}
        other => panic!("expected InvalidJson, got {:?}", other),
    }
}

#[test]
fn test_parse_jsonl_line_skips_non_usage() {
    let line = r#"{"kind":"log","message":"starting up"}"#;
    let record = parse_jsonl_line(line).expect("parse line");
    assert!(record.is_none());
}

#[test]
fn test_parse_jsonl_line_invalid_json() {
    match parse_jsonl_line("not json at all") {
        Err(ParserError::InvalidJson) => {}
        other => panic!("expected InvalidJson, got {:?}", other),
    }
}

#[test]
fn test_parse_jsonl_line_defaults() {
    let line = r#"{"id":"msg_2","model":"model-a"}"#;
    let record = parse_jsonl_line(line).expect("parse line").expect("record");
    assert_eq!(record.session_id, "unknown");
    assert_eq!(record.usage.input_tokens, 0);
    assert_eq!(record.usage.cost_micros, 0);
    assert!(!record.created_at.is_empty());
}

#[test]
fn test_parse_jsonl_line_nested_message() {
    let line = r#"{"message":{"id":"msg_3","model":"opus","usage":{"prompt_tokens":7,"completion_tokens":3}},"sessionId":"s9"}"#;
    let record = parse_jsonl_line(line).expect("parse line").expect("record");
    assert_eq!(record.message_id, "msg_3");
    assert_eq!(record.model, "opus");
    assert_eq!(record.session_id, "s9");
    assert_eq!(record.usage.input_tokens, 7);
    assert_eq!(record.usage.output_tokens, 3);
}

#[test]
fn test_micros_of_decimal() {
    assert_eq!(micros_of_decimal("0.01"), Some(10_000));
    assert_eq!(micros_of_decimal("15"), Some(15_000_000));
    assert_eq!(micros_of_decimal("1.5"), Some(1_500_000));
    assert_eq!(micros_of_decimal("0.1234567"), Some(123_456));
    assert_eq!(micros_of_decimal(""), None);
    assert_eq!(micros_of_decimal("-1.0"), None);
    assert_eq!(micros_of_decimal("1.2.3"), None);
}

#[test]
fn test_micros_of_exponent_decimal() {
    assert_eq!(micros_of_decimal("1e-3"), Some(1_000));
    assert_eq!(micros_of_decimal("1e-5"), Some(10));
    assert_eq!(micros_of_decimal("1.25e2"), Some(125_000_000));
    assert_eq!(micros_of_decimal("2.5E-1"), Some(250_000));
    assert_eq!(micros_of_decimal("1.25e-7"), Some(0));
    assert_eq!(micros_of_decimal("1e20"), None);
    assert_eq!(micros_of_decimal("1e"), None);
    assert_eq!(micros_of_decimal("-1e3"), None);
}

#[test]
fn test_parsed_cost_exponent_form() {
    let line = r#"{"id":"m","model":"x","usage":{"cost_usd":1e-5}}"#;
    let record = parse_jsonl_line(line).expect("parse line").expect("record");
    assert_eq!(record.usage.cost_micros, 10);
}

#[test]
fn test_parsed_cost_in_micros() {
    let line = r#"{"id":"m","model":"x","usage":{"cost_usd":1.25}}"#;
    let record = parse_jsonl_line(line).expect("parse line").expect("record");
    assert_eq!(record.usage.cost_micros, 1_250_000);
}

#[test]
fn test_negative_tokens_clamped() {
    let line = r#"{"id":"m","model":"x","usage":{"input_tokens":-5,"output_tokens":2}}"#;
    let record = parse_jsonl_line(line).expect("parse line").expect("record");
    assert_eq!(record.usage.input_tokens, 0);
    assert_eq!(record.usage.output_tokens, 2);
}
