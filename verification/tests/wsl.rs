use aionui_wsl::wsl::{
    decode_process_output, is_success, looks_like_utf16be, looks_like_utf16le, parse_clean_shell_probe_stdout,
    parse_lines, parse_wsl_list_verbose, redact_assignment_like, redact_line, stderr_summary_is_defined,
    summarize_stderr, WslDistro, WslProbeCommandCategory, WslProbeErrorCode, WslProbeReport, WslRawOutput,
    WslRunError,
};
use aionui_wsl::wsl_probe::{
    SystemWslCommandRunner, WslProbeSession, WslService, CLI_PROBE_SCRIPT, USER_SHELL_EXEC_SCRIPT,
};
use std::time::Duration;

fn ok(stdout: &str) -> Result<WslRawOutput, WslRunError> {
    Ok(WslRawOutput {
        status_code: Some(0),
        stdout: stdout.into(),
        stderr: String::new(),
    })
}

/// Runs a probe session against canned outcomes, one per run it asks for,
/// and returns the finished session with the arguments of each run.
fn drive(
    mut session: WslProbeSession,
    outputs: Vec<Result<WslRawOutput, WslRunError>>,
) -> (WslProbeSession, Vec<Vec<String>>) {
    let mut outputs = outputs.into_iter();
    let mut calls = Vec::new();
    while let Some(request) = session.next_request() {
        calls.push(request.args);
        let output = outputs.next().expect("missing mock output");
        session.accept(output, 1);
    }
    (session, calls)
}

fn probe(command: Option<&str>, outputs: Vec<Result<WslRawOutput, WslRunError>>) -> (WslProbeReport, Vec<Vec<String>>) {
    let (session, calls) = drive(WslProbeSession::for_probe(command), outputs);
    (session.into_report(), calls)
}

#[test]
fn parses_wsl_list_verbose_rows() {
    let rows = parse_wsl_list_verbose(
        r#"
              NAME                   STATE           VERSION
            * Ubuntu                 Running         2
              Debian                 Stopped         1
            "#,
    )
    .unwrap();
    assert_eq!(
        rows,
        vec![
            WslDistro {
                name: "Ubuntu".into(),
                state: "Running".into(),
                version: Some(2),
            },
            WslDistro {
                name: "Debian".into(),
                state: "Stopped".into(),
                version: Some(1),
            },
        ]
    );
}

#[test]
fn decodes_utf16le_wsl_output_before_parsing() {
    let text = "  NAME                   STATE           VERSION\r\n* Ubuntu-24.04           Running         2\r\n";
    let bytes = text.encode_utf16().flat_map(u16::to_le_bytes).collect::<Vec<_>>();
    let decoded = decode_process_output(&bytes);
    let rows = parse_wsl_list_verbose(&decoded).unwrap();

    assert_eq!(
        rows,
        vec![WslDistro {
            name: "Ubuntu-24.04".into(),
            state: "Running".into(),
            version: Some(2),
        }]
    );
}

#[test]
fn list_rows_keep_names_with_spaces_and_reject_short_rows() {
    let rows = parse_wsl_list_verbose("NAME STATE VERSION\nMy Distro  Running  300\n").unwrap();
    assert_eq!(
        rows,
        vec![WslDistro {
            name: "My Distro".into(),
            state: "Running".into(),
            version: None,
        }]
    );
    assert_eq!(
        parse_wsl_list_verbose("* Ubuntu Running\n").unwrap_err(),
        "invalid WSL list row: Ubuntu Running"
    );
    assert_eq!(parse_wsl_list_verbose("  \n").unwrap(), vec![]);
}

#[test]
fn decodes_byte_order_marks_and_plain_utf8() {
    let mut le = vec![0xff, 0xfe];
    le.extend("hi".encode_utf16().flat_map(u16::to_le_bytes));
    assert_eq!(decode_process_output(&le), "hi");
    let mut be = vec![0xfe, 0xff];
    be.extend("hi".encode_utf16().flat_map(u16::to_be_bytes));
    assert_eq!(decode_process_output(&be), "hi");
    let be_plain = "Ubuntu".encode_utf16().flat_map(u16::to_be_bytes).collect::<Vec<_>>();
    assert_eq!(decode_process_output(&be_plain), "Ubuntu");
    assert_eq!(decode_process_output("plain ascii".as_bytes()), "plain ascii");
    assert_eq!(decode_process_output("héllo".as_bytes()), "héllo");
    assert_eq!(decode_process_output(&[0x61, 0xff, 0x62]), "a\u{fffd}b");
}

#[test]
fn utf16_shape_needs_eight_even_bytes() {
    let le = "abcd".encode_utf16().flat_map(u16::to_le_bytes).collect::<Vec<_>>();
    assert!(looks_like_utf16le(&le));
    assert!(!looks_like_utf16be(&le));
    assert!(!looks_like_utf16le(&le[..6]));
    assert!(!looks_like_utf16le(&le[..7]));
}

#[test]
fn output_lines_are_trimmed_and_blank_lines_dropped() {
    assert_eq!(parse_lines("  a \r\n\n b\n   \n"), vec!["a".to_string(), "b".to_string()]);
    let raw = WslRawOutput {
        status_code: Some(0),
        stdout: String::new(),
        stderr: String::new(),
    };
    assert!(is_success(&raw));
    assert!(!is_success(&WslRawOutput { status_code: None, ..raw.clone() }));
    assert!(!is_success(&WslRawOutput { status_code: Some(1), ..raw }));
}

#[test]
fn clean_shell_probe_stdout_needs_exactly_one_sentinel() {
    assert_eq!(
        parse_clean_shell_probe_stdout("/usr/bin/gemini\n__AIONUI_WSL_PROBE_EXIT__:0\n"),
        Some((Some("/usr/bin/gemini".to_string()), 0))
    );
    assert_eq!(parse_clean_shell_probe_stdout("\n__AIONUI_WSL_PROBE_EXIT__:1\n"), Some((None, 1)));
    assert_eq!(parse_clean_shell_probe_stdout("/usr/bin/gemini\n"), None);
    assert_eq!(
        parse_clean_shell_probe_stdout("banner\n/usr/bin/gemini\n__AIONUI_WSL_PROBE_EXIT__:0\n"),
        None
    );
    assert_eq!(
        parse_clean_shell_probe_stdout("__AIONUI_WSL_PROBE_EXIT__:0\n__AIONUI_WSL_PROBE_EXIT__:0\n"),
        None
    );
    assert_eq!(parse_clean_shell_probe_stdout("oops\n__AIONUI_WSL_PROBE_EXIT__:127\n"), None);
}

#[test]
fn redacts_secrets_in_stderr_tokens() {
    assert_eq!(
        redact_line("token=abc123 password=hunter2 Bearer eySecret"),
        "token=[REDACTED] password=[REDACTED] Bearer [REDACTED]"
    );
    assert_eq!(redact_line("MY_API_KEY=xyz ok"), "MY_API_KEY=[REDACTED] ok");
    assert_eq!(redact_line("x-Secret=1"), "x-Secret=[REDACTED]");
    assert_eq!(redact_line("  spaced   words  "), "spaced words");
    assert_eq!(redact_assignment_like("apikey:abc", "="), "[REDACTED]");
    assert_eq!(redact_assignment_like("ApiKey=abc", "="), "ApiKey=[REDACTED]");
}

#[test]
fn stderr_summary_keeps_three_lines_and_caps_length() {
    assert_eq!(summarize_stderr(" \n  \n"), None);
    assert_eq!(
        summarize_stderr("one\n\ntwo\nthree\nfour\n").as_deref(),
        Some("one | two | three")
    );
    let long = "x".repeat(300);
    assert!(stderr_summary_is_defined(&long));
    let s = summarize_stderr(&long).unwrap();
    assert_eq!(s.len(), 243);
    assert!(s.ends_with("..."));
    let wide = format!("a{}", "é".repeat(200));
    assert!(!stderr_summary_is_defined(&wide));
    assert!(stderr_summary_is_defined(&"é".repeat(200)));
    assert_eq!(summarize_stderr(&"é".repeat(200)).unwrap().chars().count(), 123);
}

#[test]
fn probe_skips_stopped_distro_and_probes_running_distro() {
    let (report, calls) = probe(
        Some("gemini"),
        vec![
            ok("Default Distribution: Ubuntu\n"),
            ok("WSL version: 2.5.0\n"),
            ok("NAME STATE VERSION\nUbuntu Running 2\nDebian Stopped 2\n"),
            ok("/usr/bin/gemini\n__AIONUI_WSL_PROBE_EXIT__:0\n"),
        ],
    );
    assert!(report.wsl_available);
    assert_eq!(report.distros.len(), 2);
    assert!(report.distros[0].cli_probe.as_ref().unwrap().available);
    assert_eq!(report.distros[1].skipped_reason.as_deref(), Some("distro is not Running"));

    assert_eq!(calls[3][0], "-d");
    assert_eq!(calls[3][1], "Ubuntu");
    assert_eq!(calls[3][5], USER_SHELL_EXEC_SCRIPT);
    assert_eq!(calls[3][7], CLI_PROBE_SCRIPT);
    assert_eq!(calls[3][9], "gemini");
}

#[test]
fn probe_commands_reuses_wsl_base_probe_for_multiple_cli_commands() {
    let (session, calls) = drive(
        WslProbeSession::for_commands(vec!["gemini".into(), "codex".into()]),
        vec![
            ok("Default Distribution: Ubuntu\n"),
            ok("WSL version: 2.5.0\n"),
            ok("NAME STATE VERSION\nUbuntu Running 2\n"),
            ok("/usr/bin/gemini\n__AIONUI_WSL_PROBE_EXIT__:0\n"),
            ok("/usr/bin/codex\n__AIONUI_WSL_PROBE_EXIT__:0\n"),
        ],
    );
    let reports = session.into_reports();

    assert_eq!(reports.len(), 2);
    assert_eq!(reports[0].0, "gemini");
    assert_eq!(
        reports[0].1.distros[0].cli_probe.as_ref().unwrap().found_path.as_deref(),
        Some("/usr/bin/gemini")
    );
    assert_eq!(reports[1].0, "codex");
    assert_eq!(
        reports[1].1.distros[0].cli_probe.as_ref().unwrap().found_path.as_deref(),
        Some("/usr/bin/codex")
    );

    assert_eq!(calls.len(), 5);
    assert_eq!(calls[0], vec!["--status".to_owned()]);
    assert_eq!(calls[1], vec!["--version".to_owned()]);
    assert_eq!(calls[2], vec!["--list".to_owned(), "--verbose".to_owned()]);
    assert_eq!(calls[3][9], "gemini");
    assert_eq!(calls[4][9], "codex");
}

#[test]
fn probe_commands_without_commands_runs_nothing() {
    let (session, calls) = drive(WslProbeSession::for_commands(Vec::new()), Vec::new());
    assert!(calls.is_empty());
    assert!(session.into_reports().is_empty());
}

#[test]
fn probe_reports_wsl_command_unavailable() {
    let (report, _) = probe(Some("gemini"), vec![Err(WslRunError::Spawn("command not found".into()))]);
    assert!(!report.wsl_available);
    assert_eq!(report.issues[0].code, WslProbeErrorCode::WslCommandUnavailable);
    assert_eq!(report.issues[0].message, "command not found");
}

#[test]
fn probe_reports_timeout() {
    let (report, _) = probe(Some("gemini"), vec![Err(WslRunError::Timeout)]);
    assert!(!report.wsl_available);
    assert_eq!(report.issues[0].code, WslProbeErrorCode::Timeout);
    assert_eq!(report.issues[0].message, "wsl.exe command timed out");
}

#[test]
fn probe_reports_no_distro() {
    let (report, _) = probe(
        None,
        vec![ok("Default Version: 2\n"), ok("WSL version: 2.5.0\n"), ok("NAME STATE VERSION\n")],
    );
    assert_eq!(report.issues[0].code, WslProbeErrorCode::NoDistro);
    assert_eq!(report.issues[0].message, "wsl.exe returned no distros");
}

#[test]
fn user_shell_probe_requires_sentinel() {
    let (report, _) = probe(
        Some("gemini"),
        vec![
            ok("Default Version: 2\n"),
            ok("WSL version: 2.5.0\n"),
            ok("NAME STATE VERSION\nUbuntu Running 2\n"),
            ok("/usr/bin/gemini\n"),
        ],
    );
    assert_eq!(report.issues[0].code, WslProbeErrorCode::StdoutPolluted);
    assert_eq!(
        report.issues[0].message,
        "user-shell probe for 'gemini' did not return sentinel output"
    );
}

#[test]
fn user_shell_probe_rejects_polluted_stdout() {
    let (report, _) = probe(
        Some("gemini"),
        vec![
            ok("Default Version: 2\n"),
            ok("WSL version: 2.5.0\n"),
            ok("NAME STATE VERSION\nUbuntu Running 2\n"),
            ok("shell startup banner\n/usr/bin/gemini\n__AIONUI_WSL_PROBE_EXIT__:0\n"),
        ],
    );
    assert_eq!(report.issues[0].code, WslProbeErrorCode::StdoutPolluted);
}

#[test]
fn diagnostics_redact_secret_stderr() {
    let (report, _) = probe(
        None,
        vec![
            ok("Default Version: 2\n"),
            ok("WSL version: 2.5.0\n"),
            Ok(WslRawOutput {
                status_code: Some(1),
                stdout: String::new(),
                stderr: "token=abc123 password=hunter2 Bearer eySecret".into(),
            }),
        ],
    );
    let summary = report.issues[0].stderr_summary.as_ref().unwrap();
    assert!(!summary.contains("abc123"));
    assert!(!summary.contains("hunter2"));
    assert!(!summary.contains("eySecret"));
}

#[test]
fn failed_status_ends_the_probe_after_one_run() {
    let (report, calls) = probe(
        Some("gemini"),
        vec![Ok(WslRawOutput {
            status_code: Some(3),
            stdout: String::new(),
            stderr: "boom".into(),
        })],
    );
    assert_eq!(calls.len(), 1);
    assert!(!report.wsl_available);
    assert_eq!(report.issues.len(), 1);
    assert_eq!(report.issues[0].category, WslProbeCommandCategory::Status);
    assert_eq!(report.issues[0].code, WslProbeErrorCode::CommandFailed);
    assert_eq!(report.issues[0].message, "wsl.exe --status failed (status=Some(3))");
    assert_eq!(report.issues[0].stderr_summary.as_deref(), Some("boom"));
}

#[test]
fn failed_version_and_unparsable_list_are_issues_not_failures() {
    let (report, calls) = probe(
        Some("gemini"),
        vec![
            ok("Default Version: 2\n"),
            Ok(WslRawOutput {
                status_code: None,
                stdout: String::new(),
                stderr: String::new(),
            }),
            ok("NAME STATE VERSION\nbroken\n"),
        ],
    );
    assert_eq!(calls.len(), 3);
    assert!(report.wsl_available);
    assert!(report.version.is_none());
    assert_eq!(report.status.as_ref().unwrap().lines, vec!["Default Version: 2".to_string()]);
    assert_eq!(report.issues.len(), 2);
    assert_eq!(report.issues[0].message, "wsl.exe --version failed (status=None)");
    assert_eq!(report.issues[1].code, WslProbeErrorCode::ParseFailed);
    assert_eq!(report.issues[1].message, "invalid WSL list row: broken");
}

#[test]
fn missing_cli_is_reported_unavailable_with_its_exit_code() {
    let (report, _) = probe(
        Some("codex"),
        vec![
            ok("Default Version: 2\n"),
            ok("WSL version: 2.5.0\n"),
            ok("NAME STATE VERSION\nUbuntu Running 2\n"),
            Ok(WslRawOutput {
                status_code: Some(1),
                stdout: "\n__AIONUI_WSL_PROBE_EXIT__:1\n".into(),
                stderr: String::new(),
            }),
        ],
    );
    let cli = report.distros[0].cli_probe.as_ref().unwrap();
    assert!(!cli.available);
    assert_eq!(cli.found_path, None);
    assert_eq!(cli.command, "codex");
    assert_eq!(cli.probe_mode, "user-shell");
    assert_eq!(cli.observation.category, WslProbeCommandCategory::UserShellCliProbe);
    assert_eq!(cli.observation.status_code, Some(1));
    assert!(report.issues.is_empty());
}

#[test]
fn a_cli_probe_that_times_out_leaves_the_distro_without_a_result() {
    let (report, _) = probe(
        Some("gemini"),
        vec![
            ok("Default Version: 2\n"),
            ok("WSL version: 2.5.0\n"),
            ok("NAME STATE VERSION\nUbuntu Running 2\nArch Running 2\n"),
            Err(WslRunError::Timeout),
            ok("/usr/bin/gemini\n__AIONUI_WSL_PROBE_EXIT__:0\n"),
        ],
    );
    assert!(report.distros[0].cli_probe.is_none());
    assert!(report.distros[1].cli_probe.as_ref().unwrap().available);
    assert_eq!(report.issues.len(), 1);
    assert_eq!(report.issues[0].category, WslProbeCommandCategory::UserShellCliProbe);
    assert_eq!(report.issues[0].code, WslProbeErrorCode::Timeout);
}

#[test]
fn unavailable_report_holds_only_its_issue() {
    let (report, _) = probe(None, vec![Err(WslRunError::Timeout)]);
    assert!(report.status.is_none());
    assert!(report.version.is_none());
    assert!(report.distros.is_empty());
    assert_eq!(report.issues.len(), 1);
}

#[test]
fn service_times_out_after_eight_seconds_unless_told_otherwise() {
    let service = WslService::new();
    assert_eq!(service.timeout(), Duration::from_secs(8));
    let shorter = WslService::with_runner(SystemWslCommandRunner).with_timeout(Duration::from_millis(250));
    assert_eq!(shorter.timeout(), Duration::from_millis(250));
}

#[test]
fn listing_parses_line_by_line() {
    let a = "NAME STATE VERSION\n* Ubuntu Running 2";
    let b = "Debian Stopped 1\n";
    let joined = format!("{a}\n{b}");
    let mut expected = parse_wsl_list_verbose(a).unwrap();
    expected.extend(parse_wsl_list_verbose(b).unwrap());
    assert_eq!(parse_wsl_list_verbose(&joined).unwrap(), expected);
    let bad = format!("{a}\nbroken\n{b}");
    assert_eq!(parse_wsl_list_verbose(&bad).unwrap_err(), "invalid WSL list row: broken");
}

#[test]
fn encoded_text_decodes_back() {
    let text = "Ubuntu \u{1F600} é\r\n";
    let mut le = vec![0xff, 0xfe];
    le.extend(text.encode_utf16().flat_map(u16::to_le_bytes));
    assert_eq!(decode_process_output(&le), text);
    let mut be = vec![0xfe, 0xff];
    be.extend(text.encode_utf16().flat_map(u16::to_be_bytes));
    assert_eq!(decode_process_output(&be), text);
    assert_eq!(decode_process_output(text.as_bytes()), text);
}

#[test]
fn secret_values_never_reach_the_redacted_line() {
    assert_eq!(
        redact_line("ok X-Token=first end"),
        redact_line("ok X-Token=second end")
    );
    assert_eq!(redact_line("ok X-Token=first end"), "ok X-Token=[REDACTED] end");
    assert_eq!(redact_line("auth bearer one tail"), redact_line("auth bearer two tail"));
    assert_eq!(redact_line("auth bearer one tail"), "auth Bearer [REDACTED] tail");
}
