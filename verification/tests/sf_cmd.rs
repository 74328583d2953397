use rtk_sf::sf_cmd::{ensure_json_flag, failure_message, filter_sf_error, summarize_error_fields};

fn count_tokens(text: &str) -> usize {
    text.split_whitespace().count()
}

#[test]
fn test_ensure_json_flag_adds_when_missing() {
    let args = vec!["org".to_string(), "list".to_string()];
    let result = ensure_json_flag(&args);
    assert!(result.contains(&"--json".to_string()));
}

#[test]
fn test_ensure_json_flag_skips_when_present() {
    let args = vec![
        "org".to_string(),
        "list".to_string(),
        "--json".to_string(),
    ];
    let result = ensure_json_flag(&args);
    assert_eq!(result.iter().filter(|a| *a == "--json").count(), 1);
}

#[test]
fn test_filter_sf_error_basic() {
    let json = r#"{"name":"NoDefaultEnvError","message":"No default environment found. Use -o or --target-org to specify an environment.","exitCode":1,"context":"OrgDisplayCommand","stack":"NoDefaultEnvError: No default...\n    at SfCommandError.from ...\n    at OrgDisplayCommand.catch ...","cause":"undefined","warnings":[],"code":"NoDefaultEnvError","status":1,"commandName":"OrgDisplayCommand"}"#;
    let result = filter_sf_error(json).unwrap();
    assert!(result.contains("OrgDisplayCommand"));
    assert!(result.contains("NoDefaultEnvError"));
    assert!(result.contains("No default environment found"));
    assert!(!result.contains("at SfCommandError.from"));
}

#[test]
fn test_filter_sf_error_token_savings() {
    let json = r#"{"name":"NoDefaultEnvError","message":"No default environment found. Use -o or --target-org to specify an environment.","exitCode":1,"context":"OrgDisplayCommand","stack":"NoDefaultEnvError: No default environment found.\n    at SfCommandError.from (file:///long/path/to/SfCommandError.js:48:16)\n    at OrgDisplayCommand.catch (file:///long/path/to/sfCommand.js:332:47)\n    at OrgDisplayCommand._run (/long/path/command.js:186:29)\n    at async Config.runCommand (/long/path/config.js:456:25)","cause":"undefined","warnings":[],"code":"NoDefaultEnvError","status":1,"commandName":"OrgDisplayCommand"}"#;
    let result = filter_sf_error(json).unwrap();
    let savings = 100.0 - (count_tokens(&result) as f64 / count_tokens(json) as f64 * 100.0);
    assert!(
        savings >= 60.0,
        "Error filter: expected >=60% savings, got {:.1}%",
        savings
    );
}

#[test]
fn test_filter_sf_error_invalid_json() {
    assert!(filter_sf_error("not json").is_none());
}

#[test]
fn test_filter_sf_error_missing_fields() {
    let json = r#"{"message": "Something failed"}"#;
    let result = filter_sf_error(json).unwrap();
    assert!(result.contains("Something failed"));
}
