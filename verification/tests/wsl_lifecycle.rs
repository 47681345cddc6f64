use aionui_wsl::wsl_lifecycle::{
    distro_from_args, is_wsl_exe, parse_wsl_agent_pid_marker, wsl_cleanup_command, WslLifecycle,
    WSL_CLEANUP_SCRIPT,
};

fn strings(v: &[&str]) -> Vec<String> {
    v.iter().map(|s| s.to_string()).collect()
}

#[test]
fn parses_wsl_agent_pid_marker() {
    assert_eq!(parse_wsl_agent_pid_marker("__AIONUI_WSL_AGENT_PID=42"), Some(42));
    assert_eq!(parse_wsl_agent_pid_marker("__AIONUI_WSL_AGENT_PID=1"), None);
    assert_eq!(parse_wsl_agent_pid_marker("normal stderr"), None);
}

#[test]
fn pid_marker_edge_cases() {
    assert_eq!(parse_wsl_agent_pid_marker("  __AIONUI_WSL_AGENT_PID=7  "), Some(7));
    assert_eq!(parse_wsl_agent_pid_marker("__AIONUI_WSL_AGENT_PID=0"), None);
    assert_eq!(parse_wsl_agent_pid_marker("__AIONUI_WSL_AGENT_PID="), None);
    assert_eq!(parse_wsl_agent_pid_marker("__AIONUI_WSL_AGENT_PID=12a"), None);
    assert_eq!(parse_wsl_agent_pid_marker("__AIONUI_WSL_AGENT_PID=4294967295"), Some(4294967295));
    assert_eq!(parse_wsl_agent_pid_marker("__AIONUI_WSL_AGENT_PID=4294967296"), None);
}

#[test]
fn lifecycle_detects_wsl_command_spec() {
    let args = strings(&["-d", "Ubuntu", "--cd", "/mnt/c/project"]);
    let lifecycle = WslLifecycle::from_command_spec("wsl.exe", Some("wsl.exe"), &args).expect("wsl lifecycle");
    assert_eq!(lifecycle.command(), "wsl.exe");
    assert_eq!(lifecycle.distro(), "Ubuntu");
}

#[test]
fn lifecycle_ignores_native_command_spec() {
    let args = strings(&["-c", "sleep 10"]);
    assert!(WslLifecycle::from_command_spec("sh", Some("sh"), &args).is_none());
}

#[test]
fn cleanup_command_targets_wsl_distro_and_process_group() {
    let preview = wsl_cleanup_command("wsl.exe", "Ubuntu", 1234, "TERM").to_string();
    assert!(preview.contains("wsl.exe"), "preview: {preview}");
    assert!(preview.contains("Ubuntu"), "preview: {preview}");
    assert!(preview.contains("1234"), "preview: {preview}");
    assert!(preview.contains("-TERM"), "preview: {preview}");
}

#[test]
fn cleanup_command_arguments_in_order() {
    let cmd = wsl_cleanup_command("C:\\Windows\\wsl.exe", "Debian", 77, "KILL");
    assert_eq!(cmd.program, "C:\\Windows\\wsl.exe");
    assert_eq!(
        cmd.args,
        strings(&["-d", "Debian", "--exec", "sh", "-lc", WSL_CLEANUP_SCRIPT, "aionui-wsl-cleanup", "77", "-KILL"])
    );
}

#[test]
fn wsl_exe_name_is_case_insensitive() {
    assert!(is_wsl_exe(Some("WSL.EXE")));
    assert!(is_wsl_exe(Some("wsl.exe")));
    assert!(!is_wsl_exe(Some("wsl")));
    assert!(!is_wsl_exe(None));
}

#[test]
fn distro_comes_from_first_flag_with_a_value() {
    assert_eq!(distro_from_args(&strings(&["--distribution", "Arch"])), Some("Arch".to_string()));
    assert_eq!(distro_from_args(&strings(&["-d", "  "])), None);
    assert_eq!(distro_from_args(&strings(&["-d"])), None);
    assert_eq!(distro_from_args(&strings(&["--cd", "/x", "-d", "Ubuntu"])), Some("Ubuntu".to_string()));
}

#[test]
fn lifecycle_signals_only_after_pid_marker() {
    let args = strings(&["-d", "Ubuntu"]);
    let mut lifecycle = WslLifecycle::from_command_spec("wsl.exe", Some("wsl.exe"), &args).unwrap();
    assert!(lifecycle.terminate_command().is_none());
    assert!(!lifecycle.record_stderr_line("hello"));
    assert_eq!(lifecycle.agent_pid(), None);
    assert!(lifecycle.record_stderr_line("__AIONUI_WSL_AGENT_PID=900"));
    assert_eq!(lifecycle.agent_pid(), Some(900));
    let term = lifecycle.terminate_command().unwrap();
    assert_eq!(term.args[1], "Ubuntu");
    assert_eq!(term.args[7], "900");
    assert_eq!(term.args[8], "-TERM");
    let kill = lifecycle.kill_command().unwrap();
    assert_eq!(kill.args[8], "-KILL");
    assert_eq!(kill.program, "wsl.exe");
}
