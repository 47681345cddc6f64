use aionui_wsl::agent::{AgentMetadata, AgentRuntimeMetadata, AgentSource, AgentSourceInfo, AgentType};
use aionui_wsl::permission::{
    should_emit_runtime_context, AcpPermissionEventData, AcpPermissionOptionData, AcpPermissionOptionKind,
    AcpPermissionRequestData, AcpPermissionRuntimeContext, AcpPermissionToolCall, AcpToolCallKind, Confirmation,
    ConfirmationOption, RawToolInput,
};

fn runtime(kind: &str) -> AgentRuntimeMetadata {
    AgentRuntimeMetadata {
        kind: kind.into(),
        platform: None,
        distro: None,
        version: None,
        state: None,
        cli_path: None,
        detected_at: None,
        probe_mode: None,
    }
}

fn agent(id: &str, name: &str, rt: Option<AgentRuntimeMetadata>, sort_order: i64) -> AgentMetadata {
    AgentMetadata {
        id: id.into(),
        name: name.into(),
        backend: Some("gemini".into()),
        agent_type: AgentType::Acp,
        agent_source: AgentSource::Builtin,
        agent_source_info: AgentSourceInfo {
            binary_name: None,
            bridge_binary: None,
        },
        runtime: rt,
        runtime_scope_id: None,
        runtime_display_name: None,
        enabled: true,
        available: true,
        command: None,
        resolved_command: None,
        yolo_id: None,
        sort_order,
    }
}

#[test]
fn runtime_context_is_omitted_for_native_matching_workspace() {
    let mut rt = runtime("native");
    rt.platform = Some("windows".into());
    let metadata = agent("native-gemini", "Gemini", Some(rt), 3100);

    let context = AcpPermissionRuntimeContext::for_agent(&metadata, "D:\\code\\project", "D:\\code\\project");

    assert!(context.is_none());
}

#[test]
fn runtime_context_is_built_for_wsl_workspace() {
    let mut rt = runtime("wsl");
    rt.distro = Some("Ubuntu".into());
    rt.cli_path = Some("/usr/local/bin/gemini".into());
    let mut metadata = agent("wsl-ubuntu-gemini", "Gemini on Ubuntu", Some(rt), 3110);
    metadata.runtime_scope_id = Some("wsl:Ubuntu".into());
    metadata.runtime_display_name = Some("Ubuntu".into());

    let context = AcpPermissionRuntimeContext::for_agent(&metadata, "D:\\code\\project", "/mnt/d/code/project")
        .expect("wsl row should emit runtime context");

    assert_eq!(context.runtime_kind, "wsl");
    assert_eq!(context.runtime_scope_id.as_deref(), Some("wsl:Ubuntu"));
    assert_eq!(context.runtime_display_name.as_deref(), Some("Ubuntu"));
    assert_eq!(context.distro.as_deref(), Some("Ubuntu"));
    assert_eq!(context.agent_path.as_deref(), Some("/usr/local/bin/gemini"));
    assert_eq!(context.workspace_host_path, "D:\\code\\project");
    assert_eq!(context.workspace_runtime_path, "/mnt/d/code/project");
}

#[test]
fn runtime_context_rules() {
    assert!(should_emit_runtime_context(&runtime("wsl"), "/a", "/a"));
    assert!(should_emit_runtime_context(&runtime("native"), "/a", "/b"));
    assert!(!should_emit_runtime_context(&runtime("native"), "/a", "/a"));
    let no_runtime = agent("x", "x", None, 1);
    assert!(AcpPermissionRuntimeContext::for_agent(&no_runtime, "/a", "/b").is_none());
    let native = agent("x", "x", Some(runtime("native")), 1);
    let ctx = AcpPermissionRuntimeContext::for_agent(&native, "/a", "/b").unwrap();
    assert_eq!(ctx.runtime_kind, "native");
    assert_eq!(ctx.workspace_runtime_path, "/b");
}

fn request(raw_input: Option<RawToolInput>, kind: Option<AcpToolCallKind>) -> AcpPermissionRequestData {
    AcpPermissionRequestData {
        session_id: "s1".into(),
        tool_call: AcpPermissionToolCall {
            tool_call_id: "call-7".into(),
            title: Some("Run tests".into()),
            kind,
            raw_input,
        },
        options: vec![
            AcpPermissionOptionData {
                option_id: "allow".into(),
                name: "Allow once".into(),
                kind: AcpPermissionOptionKind::AllowOnce,
            },
            AcpPermissionOptionData {
                option_id: "reject".into(),
                name: "Reject".into(),
                kind: AcpPermissionOptionKind::RejectOnce,
            },
        ],
        runtime_context: None,
    }
}

#[test]
fn confirmation_takes_description_then_raw_json_then_nothing() {
    let with_description = request(
        Some(RawToolInput {
            description: Some("cargo test".into()),
            json: r#"{"description":"cargo test"}"#.into(),
        }),
        Some(AcpToolCallKind::Execute),
    );
    let c = with_description.to_confirmation();
    assert_eq!(c.id, "call-7");
    assert_eq!(c.call_id, "call-7");
    assert_eq!(c.title.as_deref(), Some("Run tests"));
    assert_eq!(c.action, None);
    assert_eq!(c.description, "cargo test");
    assert_eq!(c.command_type.as_deref(), Some("execute"));
    assert_eq!(
        c.options,
        vec![
            ConfirmationOption {
                label: "Allow once".into(),
                value: "allow".into()
            },
            ConfirmationOption {
                label: "Reject".into(),
                value: "reject".into()
            },
        ]
    );

    let json_only = request(
        Some(RawToolInput {
            description: None,
            json: r#"{"path":"a.txt"}"#.into(),
        }),
        Some(AcpToolCallKind::Read),
    );
    let c = json_only.to_confirmation();
    assert_eq!(c.description, r#"{"path":"a.txt"}"#);
    assert_eq!(c.command_type.as_deref(), Some("read"));

    let nothing = request(None, None);
    let c = nothing.to_confirmation();
    assert_eq!(c.description, "");
    assert_eq!(c.command_type, None);
    assert_eq!(
        request(None, Some(AcpToolCallKind::Edit)).to_confirmation().command_type.as_deref(),
        Some("edit")
    );
}

#[test]
fn event_confirmation_is_passed_through_or_built() {
    let built = AcpPermissionEventData::Request(request(None, None)).as_confirmation().unwrap();
    assert_eq!(built.id, "call-7");
    let given = Confirmation {
        id: "c".into(),
        call_id: "d".into(),
        title: None,
        action: Some("act".into()),
        description: "desc".into(),
        command_type: None,
        options: vec![ConfirmationOption {
            label: "L".into(),
            value: "v".into(),
        }],
    };
    let back = AcpPermissionEventData::Confirmation(given.clone()).as_confirmation().unwrap();
    assert_eq!(back, given);
}
