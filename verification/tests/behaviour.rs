use rtk_sf::cmds::cloud::sf_cmd::{
    filter_deploy, filter_org_list, filter_routed, has_json_flag, org_list_overflow_rows,
    sf_route, strip_stack_lines, with_tee_hint, SfRoute, MAX_ORG_ROWS,
};
use rtk_sf::sf_cmd::{ensure_json_flag, failure_message, filter_sf_error, summarize_error_fields};

fn args(v: &[&str]) -> Vec<String> {
    v.iter().map(|x| x.to_string()).collect()
}

#[test]
fn ensure_json_flag_appends_at_the_end() {
    assert_eq!(ensure_json_flag(&args(&["org", "list"])), args(&["org", "list", "--json"]));
    assert_eq!(ensure_json_flag(&args(&[])), args(&["--json"]));
}

#[test]
fn ensure_json_flag_keeps_arguments_that_have_it() {
    let a = args(&["--json", "org", "list"]);
    assert_eq!(ensure_json_flag(&a), a);
}

#[test]
fn ensure_json_flag_is_idempotent() {
    let once = ensure_json_flag(&args(&["data", "query", "--file", "x--json.soql"]));
    assert_eq!(ensure_json_flag(&once), once);
    assert_eq!(once.iter().filter(|a| *a == "--json").count(), 1);
}

#[test]
fn has_json_flag_on_empty_arguments() {
    assert!(!has_json_flag(&[]));
}

#[test]
fn strip_stack_lines_exact_output() {
    let input = "Error: boom\n\tat foo (x.js:1:1)\nStack: trace\n  Code: E1\nHint: retry\nattempt 2";
    assert_eq!(strip_stack_lines(input), "Error: boom\nHint: retry\nattempt 2");
}

#[test]
fn strip_stack_lines_line_endings() {
    assert_eq!(strip_stack_lines("a\r\nb"), "a\nb");
    assert_eq!(strip_stack_lines("a\n"), "a");
    assert_eq!(strip_stack_lines(""), "");
    assert_eq!(strip_stack_lines("a\n\nb"), "a\n\nb");
}

#[test]
fn filter_deploy_exact_output() {
    let input = "old frame\n\x1b[Gnew frame\nStatus: In Progress | 1/2\n  Status: In Progress again\nStatus: Succeeded\n";
    assert_eq!(filter_deploy(input, 0), "new frame\nStatus: Succeeded");
}

#[test]
fn filter_deploy_takes_the_last_frame() {
    let input = "one\x1b[Gtwo\x1b[Gthree\nfour";
    assert_eq!(filter_deploy(input, 0), "three\nfour");
}

#[test]
fn filter_deploy_ignores_exit_code() {
    let input = "Deploy ID: 1\nStatus: In Progress\nDeploy Failed.\n";
    assert_eq!(filter_deploy(input, 0), filter_deploy(input, 1));
    assert_eq!(filter_deploy(input, 1), "Deploy ID: 1\nDeploy Failed.");
}

#[test]
fn filter_org_list_exact_output() {
    let input = " Alias Username\n a  x@y.com  1\n b  x@y.com  2\n c  z@y.com  3\n";
    assert_eq!(filter_org_list(input), " Alias Username\n a  x@y.com  1\n c  z@y.com  3");
}

#[test]
fn filter_org_list_username_is_first_word_with_at() {
    // the username of each row is the word holding its first `@`
    let input = "a@b c@d\nx@y c@d\na@b e@f\n";
    assert_eq!(filter_org_list(input), "a@b c@d\nx@y c@d");
}

#[test]
fn filter_org_list_keeps_every_non_row_line() {
    let input = "head\nu@x 1\nmid\nu@x 2\ntail";
    assert_eq!(filter_org_list(input), "head\nu@x 1\nmid\ntail");
}

#[test]
fn org_list_overflow_rows_lists_all_distinct_rows() {
    let mut input = String::from(" Alias  Username\n");
    for i in 0..25 {
        input.push_str(&format!(" org{i}  user{i}@example.com\n"));
    }
    input.push_str(" dup  user0@example.com\n");
    let hidden = org_list_overflow_rows(&input).unwrap();
    assert_eq!(hidden.lines().count(), 25);
    assert!(hidden.starts_with(" org0  user0@example.com\n"));
    assert!(!hidden.contains("dup"));
    let out = filter_org_list(&input);
    assert_eq!(out.lines().filter(|l| l.contains('@')).count(), MAX_ORG_ROWS);
    assert!(out.contains("user19@"));
    assert!(!out.contains("user20@"));
}

#[test]
fn org_list_overflow_rows_none_when_few() {
    assert!(org_list_overflow_rows(" a  x@y\n b  z@y\n").is_none());
    assert!(org_list_overflow_rows("no rows").is_none());
}

#[test]
fn sf_route_choices() {
    assert_eq!(sf_route(&args(&["org", "list"])), SfRoute::OrgList);
    assert_eq!(sf_route(&args(&["org", "list", "--all"])), SfRoute::OrgList);
    assert_eq!(sf_route(&args(&["org", "list", "--json"])), SfRoute::Passthrough);
    assert_eq!(sf_route(&args(&["project", "deploy", "start"])), SfRoute::ProjectDeploy);
    assert_eq!(sf_route(&args(&["project", "retrieve"])), SfRoute::Passthrough);
    assert_eq!(sf_route(&args(&["org"])), SfRoute::Passthrough);
    assert_eq!(sf_route(&args(&[])), SfRoute::Passthrough);
}

#[test]
fn filter_routed_applies_the_route_filter() {
    let err = "Error\n    at x\nCode: 1";
    assert_eq!(filter_routed(SfRoute::Passthrough, err, 1), None);
    assert_eq!(filter_routed(SfRoute::OrgList, err, 1), Some("Error".to_string()));
    assert_eq!(filter_routed(SfRoute::OrgList, "t\nu@x 1\nu@x 2", 0), Some("t\nu@x 1".to_string()));
    assert_eq!(
        filter_routed(SfRoute::ProjectDeploy, "a\nStatus: In Progress\nb", 1),
        Some("a\nb".to_string())
    );
}

#[test]
fn filter_sf_error_exact_outputs() {
    let full = r#"{"message":"No default environment found. Use -o.","code":"NoDefaultEnvError","commandName":"OrgDisplayCommand","stack":"at x"}"#;
    assert_eq!(
        filter_sf_error(full).unwrap(),
        "✗ [OrgDisplayCommand] NoDefaultEnvError: No default environment found"
    );
    assert_eq!(filter_sf_error(r#"{"message": "Something failed"}"#).unwrap(), "✗ Something failed");
    assert_eq!(filter_sf_error(r#"{"message":"m","code":"E"}"#).unwrap(), "✗ E: m");
    assert_eq!(filter_sf_error(r#"{"message":"m","commandName":"C"}"#).unwrap(), "✗ [C] m");
    assert_eq!(filter_sf_error(r#"{"message":42,"code":"E"}"#).unwrap(), "✗ E: Unknown error");
    assert_eq!(filter_sf_error("{}").unwrap(), "✗ Unknown error");
    assert_eq!(filter_sf_error("[1, 2]"), None);
    assert_eq!(filter_sf_error("\"text\""), None);
    assert_eq!(filter_sf_error(""), None);
}

#[test]
fn summarize_error_fields_exact_outputs() {
    let fields = vec![
        ("code".to_string(), Some("E1".to_string())),
        ("commandName".to_string(), Some("Cmd".to_string())),
        ("message".to_string(), Some("First. Second. Third".to_string())),
        ("status".to_string(), None),
    ];
    assert_eq!(summarize_error_fields(&fields), "✗ [Cmd] E1: First");
    let no_sentence = vec![("message".to_string(), Some("no stop.here".to_string()))];
    assert_eq!(summarize_error_fields(&no_sentence), "✗ no stop.here");
    assert_eq!(summarize_error_fields(&vec![]), "✗ Unknown error");
}

#[test]
fn failure_message_preference_order() {
    let json = r#"{"message":"Bad. More","code":"E"}"#;
    assert_eq!(failure_message(json, "noise"), "✗ E: Bad");
    assert_eq!(failure_message("plain", json), "✗ E: Bad");
    assert_eq!(failure_message("a", "b"), "a\nb");
    assert_eq!(failure_message("  out  ", "  err \n"), "  out  \n  err \n");
    assert_eq!(failure_message("not json", ""), "not json\n");
    assert_eq!(failure_message("", ""), "\n");
}

#[test]
fn with_tee_hint_appends_on_its_own_line() {
    assert_eq!(with_tee_hint("t\nu@x 1", Some("[hint]".to_string())), "t\nu@x 1\n[hint]");
    assert_eq!(with_tee_hint("t\nu@x 1", None), "t\nu@x 1");
    assert_eq!(with_tee_hint("", Some("h".to_string())), "\nh");
}

#[test]
fn strip_stack_lines_twice_is_once() {
    let input = "Error\n  at a\nHint: x\nCode: 1\nlast";
    let once = strip_stack_lines(input);
    assert_eq!(strip_stack_lines(&once), once);
    // with a trailing empty line kept, a second pass drops it
    let once = strip_stack_lines("a\n\n\n");
    assert_eq!(once, "a\n\n");
    assert_eq!(strip_stack_lines(&once), "a\n");
}
