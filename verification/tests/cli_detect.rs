use aionui_wsl::agent::{AgentMetadata, AgentRuntimeMetadata, AgentSource, AgentSourceInfo, AgentType};
use aionui_wsl::cli_detect::{health_check, health_response, resolve_health_row, AcpHealthCheckRequest};
use aionui_wsl::registry::{probe_resolved_command, AgentCatalog, CommandProbeFacts};

fn row(id: &str, backend: &str, command: Option<&str>) -> AgentMetadata {
    AgentMetadata {
        id: id.into(),
        name: id.into(),
        backend: Some(backend.into()),
        agent_type: AgentType::Acp,
        agent_source: AgentSource::Custom,
        agent_source_info: AgentSourceInfo {
            binary_name: None,
            bridge_binary: None,
        },
        runtime: None,
        runtime_scope_id: None,
        runtime_display_name: None,
        enabled: true,
        available: false,
        command: command.map(str::to_owned),
        resolved_command: None,
        yolo_id: None,
        sort_order: 1,
    }
}

/// A catalog holding `rows`, with `sh` found on the path and nothing else.
fn registry_with_rows(rows: Vec<AgentMetadata>) -> AgentCatalog {
    let facts = CommandProbeFacts {
        managed: None,
        lookups: vec![
            ("sh".to_string(), Some("/bin/sh".to_string())),
            ("aionui-definitely-missing-cli".to_string(), None),
        ],
    };
    let mut catalog = AgentCatalog::new(false, false);
    catalog.load_rows(rows);
    let results = catalog
        .rows()
        .iter()
        .map(|m| probe_resolved_command(m, &facts))
        .collect::<Vec<_>>();
    catalog.refresh_availability(results);
    catalog
}

fn request(backend: &str, agent_id: Option<&str>, scope: Option<&str>) -> AcpHealthCheckRequest {
    AcpHealthCheckRequest {
        backend: backend.into(),
        agent_id: agent_id.map(str::to_owned),
        runtime_scope_id: scope.map(str::to_owned),
    }
}

#[test]
fn health_check_uses_visible_registry_row_for_backend_request() {
    let registry = registry_with_rows(vec![row("custom-sh", "custom-sh", Some("sh"))]);

    let result = health_check(&registry, &request("custom-sh", None, None), 0);

    assert!(result.available);
    assert!(result.error.is_none());
}

#[test]
fn health_check_reports_unavailable_exact_agent_id_without_backend_fallback() {
    let registry = registry_with_rows(vec![row(
        "missing-agent",
        "missing-backend",
        Some("aionui-definitely-missing-cli"),
    )]);

    let result = health_check(&registry, &request("missing-backend", Some("missing-agent"), None), 0);

    assert!(!result.available);
    assert_eq!(result.error.as_deref(), Some("Agent 'missing-agent' is unavailable"));
}

#[test]
fn health_check_filters_by_runtime_scope_when_supplied() {
    let registry = registry_with_rows(vec![row("native-agent", "scoped-backend", Some("sh"))]);

    let result = health_check(&registry, &request("scoped-backend", None, Some("wsl:Ubuntu")), 0);

    assert!(!result.available);
    assert_eq!(
        result.error.as_deref(),
        Some("No available agent_metadata row for backend 'scoped-backend'")
    );
}

#[test]
fn health_check_reports_disabled_rows_and_latency() {
    let mut off = row("off-agent", "off-backend", Some("sh"));
    off.enabled = false;
    let registry = registry_with_rows(vec![off]);
    let result = health_check(&registry, &request("off-backend", Some("off-agent"), None), 12);
    assert!(!result.available);
    assert_eq!(result.latency, Some(12));
    assert_eq!(result.error.as_deref(), Some("Agent 'off-agent' is disabled"));

    let none = health_check(&registry, &request("nothing", None, None), 12);
    assert_eq!(none.latency, None);
}

#[test]
fn blank_agent_id_and_scope_are_ignored() {
    let registry = registry_with_rows(vec![row("custom-sh", "custom-sh", Some("sh"))]);
    let result = health_check(&registry, &request("custom-sh", Some("  "), Some(" ")), 3);
    assert!(result.available);
    assert_eq!(result.latency, Some(3));
}

#[test]
fn agent_id_of_another_backend_finds_nothing() {
    let registry = registry_with_rows(vec![row("custom-sh", "custom-sh", Some("sh"))]);
    assert!(resolve_health_row(&registry, &request("other", Some("custom-sh"), None)).is_none());
}

#[test]
fn hidden_builtin_row_is_the_last_resort() {
    let mut builtin = row("gemini", "gemini", Some("aionui-definitely-missing-cli"));
    builtin.agent_source = AgentSource::Builtin;
    let registry = registry_with_rows(vec![builtin]);
    let found = resolve_health_row(&registry, &request("gemini", None, None)).unwrap();
    assert_eq!(found.id, "gemini");
    let answer = health_response(&request("gemini", None, None), Some(found), 5);
    assert_eq!(answer.error.as_deref(), Some("Agent 'gemini' is unavailable"));
    assert!(resolve_health_row(&registry, &request("gemini", None, Some("wsl:Ubuntu"))).is_none());
}

#[test]
fn scoped_request_answers_from_the_scoped_row() {
    let mut wsl = row("custom-sh:wsl:ubuntu", "custom-sh", Some("sh"));
    wsl.runtime_scope_id = Some("wsl:Ubuntu".into());
    wsl.runtime = Some(AgentRuntimeMetadata {
        kind: "wsl".into(),
        platform: None,
        distro: Some("Ubuntu".into()),
        version: Some(2),
        state: Some("Running".into()),
        cli_path: Some("/usr/bin/sh".into()),
        detected_at: None,
        probe_mode: Some("user-shell".into()),
    });
    let registry = registry_with_rows(vec![row("custom-sh", "custom-sh", Some("sh")), wsl]);
    let found = resolve_health_row(&registry, &request("custom-sh", None, Some("wsl:Ubuntu"))).unwrap();
    assert_eq!(found.id, "custom-sh:wsl:ubuntu");
    let unscoped = resolve_health_row(&registry, &request("custom-sh", None, None)).unwrap();
    assert_eq!(unscoped.id, "custom-sh");
}
