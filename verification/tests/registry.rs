use aionui_wsl::agent::{AgentMetadata, AgentRuntimeMetadata, AgentSource, AgentSourceInfo, AgentType};
use aionui_wsl::registry::{
    apply_probe, derive_wsl_row, derive_wsl_rows, diagnostic_snapshot, probe_resolved_command, sort_agent_rows,
    wsl_cli_command, wsl_scope_slug, AgentCatalog, CommandProbeFacts, ManagedToolFacts, RuntimeSupport,
    UnavailableReason,
};
use aionui_wsl::wsl::{
    WslCliProbeResult, WslCommandObservation, WslDistro, WslDistroProbe, WslProbeCommandCategory, WslProbeReport,
};

fn row(id: &str, backend: &str, command: Option<&str>, sort_order: i64) -> AgentMetadata {
    AgentMetadata {
        id: id.into(),
        name: id.into(),
        backend: Some(backend.into()),
        agent_type: AgentType::Acp,
        agent_source: AgentSource::Custom,
        agent_source_info: AgentSourceInfo {
            binary_name: None,
            bridge_binary: None,
        },
        runtime: None,
        runtime_scope_id: None,
        runtime_display_name: None,
        enabled: true,
        available: false,
        command: command.map(str::to_owned),
        resolved_command: None,
        yolo_id: None,
        sort_order,
    }
}

fn wsl_test_agent() -> AgentMetadata {
    let mut m = row("native-wsl-test", "wsl-test", Some("sh"), 1);
    m.name = "WSL Test Agent".into();
    m
}

fn facts_with(lookups: &[(&str, Option<&str>)]) -> CommandProbeFacts {
    CommandProbeFacts {
        managed: None,
        lookups: lookups
            .iter()
            .map(|(n, p)| (n.to_string(), p.map(str::to_owned)))
            .collect(),
    }
}

fn sh_facts() -> CommandProbeFacts {
    facts_with(&[("sh", Some("/usr/bin/sh"))])
}

fn unavailable_wsl_report() -> WslProbeReport {
    WslProbeReport {
        wsl_available: false,
        status: None,
        version: None,
        distros: Vec::new(),
        issues: Vec::new(),
    }
}

fn cli_probe(command: &str, path: Option<&str>) -> WslCliProbeResult {
    WslCliProbeResult {
        command: command.into(),
        found_path: path.map(str::to_owned),
        available: path.is_some(),
        probe_mode: "user-shell".into(),
        observation: WslCommandObservation {
            category: WslProbeCommandCategory::UserShellCliProbe,
            latency_ms: 1,
            status_code: Some(if path.is_some() { 0 } else { 1 }),
            stderr_summary: None,
        },
    }
}

fn available_wsl_report(command: &str, distro: &str, path: &str) -> WslProbeReport {
    WslProbeReport {
        wsl_available: true,
        status: None,
        version: None,
        distros: vec![WslDistroProbe {
            distro: WslDistro {
                name: distro.into(),
                state: "Running".into(),
                version: Some(2),
            },
            cli_probe: Some(cli_probe(command, Some(path))),
            skipped_reason: None,
        }],
        issues: Vec::new(),
    }
}

/// Loads `rows`, resolves their commands with `facts`, and derives the WSL
/// rows from `report_for(cli)` for every probed row.
fn catalog_with(
    supported: bool,
    enabled: bool,
    rows: Vec<AgentMetadata>,
    facts: &CommandProbeFacts,
    report_for: &dyn Fn(&str) -> WslProbeReport,
) -> AgentCatalog {
    let mut catalog = AgentCatalog::new(supported, enabled);
    catalog.load_rows(rows);
    refresh(&mut catalog, facts, report_for);
    catalog
}

fn refresh(catalog: &mut AgentCatalog, facts: &CommandProbeFacts, report_for: &dyn Fn(&str) -> WslProbeReport) {
    let results = catalog
        .rows()
        .iter()
        .map(|m| probe_resolved_command(m, facts))
        .collect::<Vec<_>>();
    catalog.refresh_availability(results);
    reprobe(catalog, report_for);
}

fn reprobe(catalog: &mut AgentCatalog, report_for: &dyn Fn(&str) -> WslProbeReport) {
    let reports = catalog
        .wsl_probe_targets()
        .into_iter()
        .map(|(base, cli)| {
            let report = report_for(&cli);
            (base, report)
        })
        .collect::<Vec<_>>();
    catalog.apply_wsl_reports(reports, Some(1_700_000_000_000));
}

fn sh_on_ubuntu(cli: &str) -> WslProbeReport {
    if cli == "sh" {
        available_wsl_report("sh", "Ubuntu", "/usr/bin/sh")
    } else {
        unavailable_wsl_report()
    }
}

fn is_wsl_row(m: &AgentMetadata) -> bool {
    m.runtime.as_ref().is_some_and(|runtime| runtime.is_wsl())
}

#[test]
fn list_all_merges_native_and_wsl_rows_with_unique_identity() {
    let reg = catalog_with(true, true, vec![wsl_test_agent()], &sh_facts(), &sh_on_ubuntu);

    let visible = reg.list_all();
    let native = visible
        .iter()
        .find(|m| m.id == "native-wsl-test")
        .expect("native custom row should remain visible");
    let wsl = visible
        .iter()
        .find(|m| m.id == "native-wsl-test:wsl:ubuntu")
        .expect("WSL derived row should be visible");

    assert_eq!(native.backend, wsl.backend);
    assert_ne!(native.id, wsl.id);
    assert_eq!(wsl.runtime.as_ref().unwrap().kind, "wsl");
    assert_eq!(wsl.runtime.as_ref().unwrap().distro.as_deref(), Some("Ubuntu"));
    assert_eq!(wsl.runtime_scope_id.as_deref(), Some("wsl:Ubuntu"));
    assert_eq!(wsl.resolved_command.as_deref(), Some("/usr/bin/sh"));
}

#[test]
fn get_returns_derived_wsl_row_by_id() {
    let reg = catalog_with(true, true, vec![wsl_test_agent()], &sh_facts(), &sh_on_ubuntu);

    let wsl = reg
        .get("native-wsl-test:wsl:ubuntu")
        .expect("derived WSL row should be addressable by id");
    assert_eq!(wsl.backend.as_deref(), Some("wsl-test"));
    assert_eq!(wsl.runtime_display_name.as_deref(), Some("Ubuntu"));
}

#[test]
fn set_wsl_enabled_clears_and_reprobes_derived_rows() {
    let mut reg = catalog_with(true, true, vec![wsl_test_agent()], &sh_facts(), &sh_on_ubuntu);

    assert!(reg.get("native-wsl-test:wsl:ubuntu").is_some());

    reg.set_wsl_enabled(false);
    reprobe(&mut reg, &sh_on_ubuntu);
    assert!(!reg.is_wsl_enabled());
    assert!(reg.get("native-wsl-test:wsl:ubuntu").is_none());
    assert!(reg.list_all().iter().all(|m| !is_wsl_row(m)));

    reg.set_wsl_enabled(true);
    reprobe(&mut reg, &sh_on_ubuntu);
    assert!(reg.is_wsl_enabled());
    assert!(reg.get("native-wsl-test:wsl:ubuntu").is_some());
}

#[test]
fn unsupported_host_never_derives_wsl_rows_even_when_enabled() {
    let mut reg = catalog_with(false, true, vec![wsl_test_agent()], &sh_facts(), &sh_on_ubuntu);

    assert!(!reg.is_wsl_supported());
    assert!(!reg.is_wsl_enabled());
    assert!(reg.get("native-wsl-test").is_some());
    assert!(reg.get("native-wsl-test:wsl:ubuntu").is_none());

    assert!(!reg.set_wsl_enabled(true));
    reprobe(&mut reg, &sh_on_ubuntu);
    assert!(!reg.is_wsl_enabled());
    assert!(reg.get("native-wsl-test:wsl:ubuntu").is_none());
}

#[test]
fn wsl_probe_failure_does_not_remove_native_rows() {
    let reg = catalog_with(true, true, vec![wsl_test_agent()], &sh_facts(), &|_: &str| unavailable_wsl_report());

    let visible = reg.list_all();
    assert!(
        visible.iter().any(|m| m.id == "native-wsl-test"),
        "native row should remain visible when WSL probe is unavailable"
    );
    assert!(
        visible.iter().all(|m| !is_wsl_row(m)),
        "unavailable WSL probe should not create WSL rows"
    );
}

#[test]
fn listing_holds_only_enabled_available_rows_sorted() {
    let mut internal = row("aionrs", "aionrs", None, 5);
    internal.agent_type = AgentType::Aionrs;
    internal.agent_source = AgentSource::Internal;
    let mut disabled = row("off", "off", Some("sh"), 0);
    disabled.enabled = false;
    let rows = vec![
        row("zeta", "z", Some("sh"), 2),
        row("alpha", "a", Some("sh"), 2),
        row("missing", "m", Some("nope"), 1),
        internal,
        disabled,
    ];
    let reg = catalog_with(false, false, rows, &facts_with(&[("sh", Some("/bin/sh")), ("nope", None)]), &sh_on_ubuntu);
    let ids = reg.list_all().iter().map(|m| m.id.clone()).collect::<Vec<_>>();
    assert_eq!(ids, vec!["alpha", "zeta", "aionrs"]);
    assert!(reg.list_all().iter().all(|m| m.enabled && m.available));
    assert_eq!(reg.list_all_including_hidden().len(), 5);
    let acp = reg.list_by_agent_type(AgentType::Acp).iter().map(|m| m.id.clone()).collect::<Vec<_>>();
    assert_eq!(acp, vec!["alpha", "zeta"]);
    let aionrs = reg.list_by_agent_type(AgentType::Aionrs);
    assert_eq!(aionrs.len(), 1);
    assert_eq!(aionrs[0].agent_source, AgentSource::Internal);
    assert!(aionrs[0].command.is_none());
    assert!(aionrs[0].available);
}

#[test]
fn diagnostic_snapshot_gives_a_reason_exactly_for_unavailable_rows() {
    let mut internal = row("aionrs", "aionrs", None, 5);
    internal.agent_type = AgentType::Aionrs;
    internal.agent_source = AgentSource::Internal;
    let mut disabled = row("off", "off", Some("sh"), 0);
    disabled.enabled = false;
    let facts = facts_with(&[("sh", Some("/bin/sh")), ("nope", None)]);
    let reg = catalog_with(
        false,
        false,
        vec![row("ok", "ok", Some("sh"), 1), row("missing", "m", Some("nope"), 2), internal, disabled],
        &facts,
        &sh_on_ubuntu,
    );
    let rows = reg.rows();
    let all_facts = rows.iter().map(|_| facts_with(&[("sh", Some("/bin/sh")), ("nope", None)])).collect::<Vec<_>>();
    let snapshot = diagnostic_snapshot(&rows, &all_facts);
    assert_eq!(snapshot.len(), 4, "every row appears once");
    for (meta, reason) in &snapshot {
        assert_eq!(meta.available, reason.is_none(), "row {}", meta.id);
    }
    let missing = snapshot.iter().find(|(m, _)| m.id == "missing").unwrap();
    assert_eq!(
        missing.1.as_ref().unwrap().to_string(),
        "spawn command `nope` not on $PATH"
    );
    let off = snapshot.iter().find(|(m, _)| m.id == "off").unwrap();
    assert_eq!(off.1.as_ref().unwrap().to_string(), "row disabled by user");
    let aionrs = snapshot.iter().find(|(m, _)| m.agent_type == AgentType::Aionrs).unwrap();
    assert!(aionrs.0.available);
    assert!(aionrs.1.is_none());
}

#[test]
fn resolving_commands_names_the_first_missing_piece() {
    let mut bridged = row("b", "gemini", Some("npx"), 1);
    bridged.agent_source_info = AgentSourceInfo {
        binary_name: Some("gemini".into()),
        bridge_binary: Some("node".into()),
    };
    let facts = facts_with(&[("npx", Some("/usr/bin/npx")), ("node", None), ("gemini", None)]);
    match probe_resolved_command(&bridged, &facts) {
        Err(UnavailableReason::BridgeMissing { bridge }) => assert_eq!(bridge, "node"),
        other => panic!("unexpected {other:?}"),
    }
    let facts = facts_with(&[("npx", Some("/usr/bin/npx")), ("node", Some("/usr/bin/node")), ("gemini", None)]);
    match probe_resolved_command(&bridged, &facts) {
        Err(UnavailableReason::PrimaryMissing { binary }) => assert_eq!(binary, "gemini"),
        other => panic!("unexpected {other:?}"),
    }
    let facts = facts_with(&[
        ("npx", Some("/usr/bin/npx")),
        ("node", Some("/usr/bin/node")),
        ("gemini", Some("/usr/bin/gemini")),
    ]);
    assert_eq!(probe_resolved_command(&bridged, &facts).unwrap(), "/usr/bin/npx");

    let mut empty = row("e", "e", Some(""), 1);
    assert!(matches!(probe_resolved_command(&empty, &facts), Err(UnavailableReason::NoCommand)));
    empty.command = None;
    assert!(matches!(probe_resolved_command(&empty, &facts), Err(UnavailableReason::NoCommand)));
}

#[test]
fn managed_builtin_rows_resolve_through_the_managed_tool() {
    let mut gemini = row("gemini", "gemini", None, 1);
    gemini.agent_source = AgentSource::Builtin;
    let managed = |node: bool, tool: bool| CommandProbeFacts {
        managed: Some(ManagedToolFacts {
            slug: "gemini-code-acp".into(),
            node: RuntimeSupport {
                supported: node,
                detail: "node too old".into(),
            },
            tool: RuntimeSupport {
                supported: tool,
                detail: "not installed".into(),
            },
        }),
        lookups: Vec::new(),
    };
    assert_eq!(probe_resolved_command(&gemini, &managed(true, true)).unwrap(), "gemini-code-acp");
    let e = probe_resolved_command(&gemini, &managed(false, true)).unwrap_err();
    assert_eq!(e.to_string(), "managed `node` unavailable: node too old");
    let e = probe_resolved_command(&gemini, &managed(true, false)).unwrap_err();
    assert_eq!(e.to_string(), "managed `gemini-code-acp` unavailable: not installed");
}

#[test]
fn applying_a_probe_sets_availability() {
    let mut m = row("x", "x", Some("sh"), 1);
    assert!(apply_probe(&mut m, Ok("/bin/sh".into())).is_none());
    assert!(m.available);
    assert_eq!(m.resolved_command.as_deref(), Some("/bin/sh"));
    let reason = apply_probe(&mut m, Err(UnavailableReason::CommandMissing { command: "sh".into() }));
    assert!(reason.is_some());
    assert!(!m.available);
    assert!(m.resolved_command.is_none());
}

#[test]
fn scope_slugs_are_lower_case_and_dash_separated() {
    assert_eq!(wsl_scope_slug("Ubuntu-24.04"), "ubuntu-24-04");
    assert_eq!(wsl_scope_slug("  My Distro!! "), "my-distro");
    assert_eq!(wsl_scope_slug("---"), "default");
    assert_eq!(wsl_scope_slug(""), "default");
    assert_eq!(wsl_scope_slug("Ärger"), "rger");
}

#[test]
fn wsl_cli_prefers_primary_binary_and_skips_empty_names() {
    let mut m = row("x", "x", Some("npx"), 1);
    assert_eq!(wsl_cli_command(&m).as_deref(), Some("npx"));
    m.agent_source_info.binary_name = Some("gemini".into());
    assert_eq!(wsl_cli_command(&m).as_deref(), Some("gemini"));
    m.agent_source_info.binary_name = Some(String::new());
    assert_eq!(wsl_cli_command(&m), None);
    m.agent_source_info.binary_name = None;
    m.command = None;
    assert_eq!(wsl_cli_command(&m), None);
}

#[test]
fn derived_rows_take_the_distro_identity() {
    let base = wsl_test_agent();
    let distro = WslDistro {
        name: "Ubuntu 22.04".into(),
        state: "Running".into(),
        version: Some(2),
    };
    let d = derive_wsl_row(&base, &distro, &cli_probe("sh", Some("/bin/sh")), Some(7)).unwrap();
    assert_eq!(d.id, "native-wsl-test:wsl:ubuntu-22-04");
    assert_eq!(d.name, "WSL Test Agent (Ubuntu 22.04)");
    assert_eq!(d.sort_order, 2);
    assert_eq!(d.command.as_deref(), Some("sh"));
    assert_eq!(d.runtime_scope_id.as_deref(), Some("wsl:Ubuntu 22.04"));
    let rt: &AgentRuntimeMetadata = d.runtime.as_ref().unwrap();
    assert_eq!(rt.detected_at, Some(7));
    assert_eq!(rt.state.as_deref(), Some("Running"));
    assert_eq!(rt.version, Some(2));
    assert_eq!(rt.probe_mode.as_deref(), Some("user-shell"));
    assert!(derive_wsl_row(&base, &distro, &cli_probe("sh", None), Some(7)).is_none());

    let mut report = available_wsl_report("sh", "Ubuntu", "/usr/bin/sh");
    report.distros.push(WslDistroProbe {
        distro: WslDistro {
            name: "Debian".into(),
            state: "Stopped".into(),
            version: Some(1),
        },
        cli_probe: None,
        skipped_reason: Some("distro is not Running".into()),
    });
    assert_eq!(derive_wsl_rows(&base, &report, None).len(), 1);
    report.wsl_available = false;
    assert!(derive_wsl_rows(&base, &report, None).is_empty());
}

#[test]
fn sorting_orders_by_sort_order_then_name() {
    let mut rows = vec![row("b", "b", None, 3), row("c", "c", None, 1), row("a", "a", None, 3)];
    sort_agent_rows(&mut rows);
    let ids = rows.iter().map(|m| m.id.clone()).collect::<Vec<_>>();
    assert_eq!(ids, vec!["c", "a", "b"]);
}

#[test]
fn loading_rows_keeps_the_last_row_of_an_id() {
    let mut catalog = AgentCatalog::new(false, false);
    let mut second = row("dup", "two", Some("sh"), 1);
    second.name = "second".into();
    catalog.load_rows(vec![row("dup", "one", Some("sh"), 1), second]);
    assert_eq!(catalog.rows().len(), 1);
    assert_eq!(catalog.get("dup").unwrap().name, "second");
}

#[test]
fn find_builtin_by_backend_returns_only_builtin_rows() {
    let mut builtin = row("gemini", "gemini", Some("sh"), 2);
    builtin.agent_source = AgentSource::Builtin;
    let catalog = catalog_with(false, false, vec![row("custom", "gemini", Some("sh"), 1), builtin], &sh_facts(), &sh_on_ubuntu);
    assert_eq!(catalog.find_builtin_by_backend("gemini").unwrap().id, "gemini");
    assert!(catalog.find_builtin_by_backend("codex").is_none());
}

#[test]
fn catalog_diagnostic_snapshot_is_sorted_and_paired_with_each_rows_facts() {
    let mut disabled = row("off", "off", Some("sh"), 0);
    disabled.enabled = false;
    let facts = facts_with(&[("sh", Some("/bin/sh")), ("nope", None)]);
    let reg = catalog_with(
        false,
        false,
        vec![row("zeta", "z", Some("nope"), 3), row("alpha", "a", Some("sh"), 3), disabled],
        &facts,
        &sh_on_ubuntu,
    );
    let per_row = reg
        .rows()
        .iter()
        .map(|_| facts_with(&[("sh", Some("/bin/sh")), ("nope", None)]))
        .collect::<Vec<_>>();
    let snapshot = reg.diagnostic_snapshot(&per_row);
    let ids = snapshot.iter().map(|(m, _)| m.id.clone()).collect::<Vec<_>>();
    assert_eq!(ids, vec!["off", "alpha", "zeta"]);
    assert_eq!(snapshot[0].1.as_ref().unwrap().to_string(), "row disabled by user");
    assert!(snapshot[1].1.is_none());
    assert_eq!(snapshot[2].1.as_ref().unwrap().to_string(), "spawn command `nope` not on $PATH");
}
