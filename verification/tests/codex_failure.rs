use codex_queue_demo::codex::{
    not_found_message, not_runnable_message, CliSearch, SearchStep, classify_failure, exit_failure, exit_failure_from, last_turn_failure, parse_decimal,
    split_lines, split_tokens, terminal_failure_message,
};
use codex_queue_demo::{
    contains_transient_status, is_permanent_message, is_transient_codex_failure,
    is_transient_message, timeout_error,
};

fn chars(text: &str) -> Vec<char> {
    text.chars().collect()
}

fn texts(lines: Vec<Vec<char>>) -> Vec<String> {
    lines.into_iter().map(|line| line.into_iter().collect()).collect()
}

#[test]
fn recognizes_retryable_network_and_api_failures() {
    assert!(is_transient_codex_failure(
        br#"{"type":"turn.failed","error":{"message":"rate limit exceeded (429)"}}"#,
        b""
    ));
    assert!(is_transient_codex_failure(b"", b"HTTP 502 bad gateway"));
    assert!(is_transient_codex_failure(
        b"",
        b"stream disconnected before completion"
    ));
    assert!(is_transient_codex_failure(
        b"",
        b"request timed out while connecting"
    ));
    assert!(is_transient_codex_failure(b"", b"HTTP 503"));
    assert!(is_transient_codex_failure(
        br#"{"type":"turn.failed","error":{"message":"HTTP 429"}}"#,
        b""
    ));
}

#[test]
fn rejects_permanent_and_unknown_failures() {
    assert!(!is_transient_codex_failure(
        b"",
        b"HTTP 401 invalid authentication"
    ));
    assert!(!is_transient_codex_failure(b"", b"workspace tests failed"));
    assert!(!is_transient_codex_failure(
        b"",
        b"workspace tests failed after checking 500 cases"
    ));
    assert!(!is_transient_codex_failure(
        b"",
        b"HTTP 429: You exceeded your current quota"
    ));
    assert!(!is_transient_codex_failure(
        br#"{"type":"item.completed","item":{"type":"agent_message","text":"rate limit 429"}}"#,
        b"task command failed"
    ));
    assert!(is_transient_codex_failure(
        br#"{"type":"item.completed","item":{"type":"agent_message","text":"invalid api key"}}"#,
        b"HTTP 503"
    ));
    assert!(!is_transient_codex_failure(
        br#"{"type":"turn.failed","error":{"message":"unsupported region"}}"#,
        b"remote plugin sync failed with status 503 Service Unavailable"
    ));
}

#[test]
fn does_not_retry_when_a_timed_out_process_tree_cannot_be_terminated() {
    let error = timeout_error(1, 0, Some("job termination failed".to_owned()));

    assert!(error.transient_error().is_none());
    assert!(error.message().contains("failed to clean up the process"));
}

#[test]
fn a_timed_out_run_that_was_cleaned_up_is_retried() {
    let error = timeout_error(2700, 0, None);

    let transient = error.transient_error().expect("a clean timeout is transient");
    assert_eq!(transient.message(), "codex exec timed out after 2700s");
    assert_eq!(error.message(), "codex exec timed out after 2700s");
}

#[test]
fn a_timeout_message_writes_fractions_of_a_second() {
    let error = timeout_error(1, 500_000_000, Some("kill failed".to_owned()));

    assert_eq!(
        error.message(),
        "codex exec timed out after 1.5s; failed to clean up the process: kill failed"
    );
}

#[test]
fn markers_are_found_whatever_their_case() {
    assert!(is_permanent_message("Invalid API Key provided"));
    assert!(is_permanent_message("INSUFFICIENT_QUOTA"));
    assert!(!is_permanent_message("HTTP 503"));
    assert!(is_transient_message("Connection RESET by peer"));
    assert!(is_transient_message("Service Unavailable"));
    assert!(!is_transient_message("syntax error"));
}

#[test]
fn a_status_code_needs_its_announcement() {
    assert!(contains_transient_status("http 503"));
    assert!(contains_transient_status("status code 429 returned"));
    assert!(contains_transient_status("response status 500"));
    assert!(contains_transient_status("api error 529"));
    assert!(contains_transient_status("http/1.1 502"));
    assert!(contains_transient_status("http/2 504"));
    assert!(contains_transient_status("got status 408"));
    assert!(!contains_transient_status("503"));
    assert!(!contains_transient_status("http 404"));
    assert!(!contains_transient_status("http 600"));
    assert!(!contains_transient_status("checked 500 cases"));
    assert!(!contains_transient_status("http status 70000"));
    assert!(contains_transient_status("http 0503"));
}

#[test]
fn only_the_three_tokens_before_a_code_count() {
    assert!(contains_transient_status("http x y 503") == false);
    assert!(contains_transient_status("http 1 1 503"));
    assert!(contains_transient_status("status, code: 429"));
}

#[test]
fn tokens_are_runs_of_letters_and_digits() {
    let tokens = texts(split_tokens(&chars("  HTTP/1.1 -- 503_x ")));
    assert_eq!(tokens, vec!["HTTP", "1", "1", "503", "x"]);
    assert!(split_tokens(&chars("--- ")).is_empty());
}

#[test]
fn decimal_tokens_are_bounded() {
    assert_eq!(parse_decimal(&chars("65535"), 65535), Some(65535));
    assert_eq!(parse_decimal(&chars("65536"), 65535), None);
    assert_eq!(parse_decimal(&chars("007"), 65535), Some(7));
    assert_eq!(parse_decimal(&chars(""), 65535), None);
    assert_eq!(parse_decimal(&chars("5a"), 65535), None);
    assert_eq!(parse_decimal(&chars("4294967295"), u32::MAX), Some(u32::MAX));
    assert_eq!(parse_decimal(&chars("4294967296"), u32::MAX), None);
}

#[test]
fn lines_split_like_str_lines() {
    assert_eq!(texts(split_lines(&chars("a\nb\r\nc"))), vec!["a", "b", "c"]);
    assert_eq!(texts(split_lines(&chars("a\n\nb\n"))), vec!["a", "", "b"]);
    assert_eq!(texts(split_lines(&chars("tail\r"))), vec!["tail\r"]);
    assert!(split_lines(&chars("")).is_empty());
}

#[test]
fn the_last_turn_failure_wins() {
    let events = [
        r#"{"type":"turn.failed","error":{"message":"first"}}"#,
        "\n",
        r#"{"type":"item.completed"}"#,
        "\n",
        "not json\n",
        r#"{"type":"turn.failed","error":{"message":"second"}}"#,
        "\r\n",
        r#"{"type":"turn.failed","error":{"code":1}}"#,
        "\n",
    ]
    .join("");
    let events = events.as_str();
    assert_eq!(last_turn_failure(events).as_deref(), Some("second"));
    assert_eq!(
        terminal_failure_message(events.as_bytes()).as_deref(),
        Some("second")
    );
    assert_eq!(last_turn_failure(r#"{"type":"turn.completed"}"#), None);
}

#[test]
fn a_reported_failure_decides_over_the_error_output() {
    let terminal = Some("unsupported region".to_owned());
    assert!(!classify_failure(&terminal, "HTTP 503"));
    assert!(classify_failure(&None, "HTTP 503"));
    assert!(!classify_failure(&None, "HTTP 503 invalid api key"));
}

#[test]
fn exit_failures_say_where_to_look() {
    let failure = exit_failure_from("exit status: 1", &None, "  \n");
    assert!(failure.transient_error().is_none());
    assert_eq!(
        failure.message(),
        "codex exec exited with status exit status: 1: see events.jsonl for details"
    );

    let failure = exit_failure_from("exit status: 1", &None, "\n HTTP 503 service unavailable \n");
    assert!(failure.transient_error().is_some());
    assert_eq!(
        failure.message(),
        "codex exec exited with status exit status: 1: HTTP 503 service unavailable"
    );

    let failure = exit_failure(
        "exit status: 2",
        br#"{"type":"turn.failed","error":{"message":"HTTP 401 invalid authentication"}}"#,
        b"HTTP 503",
    );
    assert!(failure.transient_error().is_none());
    assert_eq!(
        failure.message(),
        "codex exec exited with status exit status: 2: HTTP 401 invalid authentication"
    );
}

#[test]
fn the_first_candidate_that_runs_is_chosen() {
    let mut search = CliSearch::new(3);
    assert_eq!(search.step(None), SearchStep::Probe(0));
    assert_eq!(search.step(Some(false)), SearchStep::Probe(1));
    assert_eq!(search.step(Some(true)), SearchStep::Selected(1));

    let mut failing = CliSearch::new(2);
    assert_eq!(failing.step(None), SearchStep::Probe(0));
    assert_eq!(failing.step(Some(false)), SearchStep::Probe(1));
    assert_eq!(failing.step(Some(false)), SearchStep::NotRunnable(1));

    let mut empty = CliSearch::new(0);
    assert_eq!(empty.step(None), SearchStep::NotFound);
    assert_eq!(
        not_found_message(),
        "Codex CLI was not found. Install Codex CLI or set an absolute Codex CLI path in queue settings"
    );
    assert_eq!(
        not_runnable_message("/bin/codex", "exit 1"),
        "Codex CLI is not runnable: /bin/codex: exit 1. Choose a working CLI in queue settings"
    );
}
