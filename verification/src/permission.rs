//! Permission prompts raised by an ACP agent: the runtime context shown
//! with a prompt for an agent that runs elsewhere than the host (WSL), and
//! the confirmation a prompt becomes for the user interface.
use vstd::prelude::*;
use crate::agent::{runtime_is_wsl, AgentMetadata, AgentRuntimeMetadata, AgentV, RuntimeV};
use crate::text::chars_of;
use crate::wsl::{copy_opt_text, copy_text, opt_text};

verus! {

/// Where a prompting agent runs, and where the workspace is on each side.
#[derive(Debug, Clone, PartialEq, Eq)]
pub struct AcpPermissionRuntimeContext {
    pub runtime_kind: String,
    pub runtime_scope_id: Option<String>,
    pub runtime_display_name: Option<String>,
    pub distro: Option<String>,
    pub agent_path: Option<String>,
    pub workspace_host_path: String,
    pub workspace_runtime_path: String,
}

#[derive(Debug, Clone, Copy, PartialEq, Eq, Structural)]
pub enum AcpPermissionOptionKind {
    AllowOnce,
    AllowAlways,
    RejectOnce,
    RejectAlways,
}

/// What a tool call does, as far as a confirmation shows it.
#[derive(Debug, Clone, Copy, PartialEq, Eq, Structural)]
pub enum AcpToolCallKind {
    Read,
    Edit,
    Execute,
}

/// The parts of a tool call's raw input that a prompt shows: its
/// `description` string, if it has one, and the input as compact JSON.
#[derive(Debug, Clone, PartialEq, Eq)]
pub struct RawToolInput {
    pub description: Option<String>,
    pub json: String,
}

#[derive(Debug, Clone)]
pub struct AcpPermissionToolCall {
    pub tool_call_id: String,
    pub title: Option<String>,
    pub kind: Option<AcpToolCallKind>,
    pub raw_input: Option<RawToolInput>,
}

#[derive(Debug, Clone)]
pub struct AcpPermissionOptionData {
    pub option_id: String,
    pub name: String,
    pub kind: AcpPermissionOptionKind,
}

#[derive(Debug, Clone)]
pub struct AcpPermissionRequestData {
    pub session_id: String,
    pub tool_call: AcpPermissionToolCall,
    pub options: Vec<AcpPermissionOptionData>,
    pub runtime_context: Option<AcpPermissionRuntimeContext>,
}

/// One choice of a confirmation; `value` is the option id, sent as a JSON
/// string.
#[derive(Debug, Clone, PartialEq, Eq)]
pub struct ConfirmationOption {
    pub label: String,
    pub value: String,
}

/// A prompt as the user interface shows it.
#[derive(Debug, Clone, PartialEq, Eq)]
pub struct Confirmation {
    pub id: String,
    pub call_id: String,
    pub title: Option<String>,
    pub action: Option<String>,
    pub description: String,
    pub command_type: Option<String>,
    pub options: Vec<ConfirmationOption>,
}

/// A permission event: a request from the agent, or a confirmation already
/// built.
#[derive(Debug, Clone)]
pub enum AcpPermissionEventData {
    Request(AcpPermissionRequestData),
    Confirmation(Confirmation),
}

// ---------------------------------------------------------------------------
// Views
// ---------------------------------------------------------------------------

pub struct ContextV {
    pub runtime_kind: Seq<char>,
    pub runtime_scope_id: Option<Seq<char>>,
    pub runtime_display_name: Option<Seq<char>>,
    pub distro: Option<Seq<char>>,
    pub agent_path: Option<Seq<char>>,
    pub workspace_host_path: Seq<char>,
    pub workspace_runtime_path: Seq<char>,
}

pub struct RawInputV {
    pub description: Option<Seq<char>>,
    pub json: Seq<char>,
}

pub struct ToolCallV {
    pub tool_call_id: Seq<char>,
    pub title: Option<Seq<char>>,
    pub kind: Option<AcpToolCallKind>,
    pub raw_input: Option<RawInputV>,
}

pub struct OptionV {
    pub option_id: Seq<char>,
    pub name: Seq<char>,
    pub kind: AcpPermissionOptionKind,
}

pub struct RequestDataV {
    pub session_id: Seq<char>,
    pub tool_call: ToolCallV,
    pub options: Seq<OptionV>,
    pub runtime_context: Option<ContextV>,
}

pub struct ChoiceV {
    pub label: Seq<char>,
    pub value: Seq<char>,
}

pub struct ConfirmationV {
    pub id: Seq<char>,
    pub call_id: Seq<char>,
    pub title: Option<Seq<char>>,
    pub action: Option<Seq<char>>,
    pub description: Seq<char>,
    pub command_type: Option<Seq<char>>,
    pub options: Seq<ChoiceV>,
}

impl View for AcpPermissionRuntimeContext {
    type V = ContextV;

    open spec fn view(&self) -> ContextV {
        ContextV {
            runtime_kind: self.runtime_kind@,
            runtime_scope_id: opt_text(self.runtime_scope_id),
            runtime_display_name: opt_text(self.runtime_display_name),
            distro: opt_text(self.distro),
            agent_path: opt_text(self.agent_path),
            workspace_host_path: self.workspace_host_path@,
            workspace_runtime_path: self.workspace_runtime_path@,
        }
    }
}

impl View for RawToolInput {
    type V = RawInputV;

    open spec fn view(&self) -> RawInputV {
        RawInputV { description: opt_text(self.description), json: self.json@ }
    }
}

impl View for AcpPermissionToolCall {
    type V = ToolCallV;

    open spec fn view(&self) -> ToolCallV {
        ToolCallV {
            tool_call_id: self.tool_call_id@,
            title: opt_text(self.title),
            kind: self.kind,
            raw_input: match self.raw_input {
                Some(r) => Some(r@),
                None => None,
            },
        }
    }
}

impl View for AcpPermissionOptionData {
    type V = OptionV;

    open spec fn view(&self) -> OptionV {
        OptionV { option_id: self.option_id@, name: self.name@, kind: self.kind }
    }
}

impl View for AcpPermissionRequestData {
    type V = RequestDataV;

    open spec fn view(&self) -> RequestDataV {
        RequestDataV {
            session_id: self.session_id@,
            tool_call: self.tool_call@,
            options: self.options@.map_values(|o: AcpPermissionOptionData| o@),
            runtime_context: match self.runtime_context {
                Some(c) => Some(c@),
                None => None,
            },
        }
    }
}

impl View for ConfirmationOption {
    type V = ChoiceV;

    open spec fn view(&self) -> ChoiceV {
        ChoiceV { label: self.label@, value: self.value@ }
    }
}

impl View for Confirmation {
    type V = ConfirmationV;

    open spec fn view(&self) -> ConfirmationV {
        ConfirmationV {
            id: self.id@,
            call_id: self.call_id@,
            title: opt_text(self.title),
            action: opt_text(self.action),
            description: self.description@,
            command_type: opt_text(self.command_type),
            options: self.options@.map_values(|o: ConfirmationOption| o@),
        }
    }
}

// ---------------------------------------------------------------------------
// Runtime context
// ---------------------------------------------------------------------------

/// A prompt carries a runtime context when the agent runs in WSL or the
/// workspace path differs between host and runtime.
pub open spec fn emits_context(r: RuntimeV, host: Seq<char>, runtime: Seq<char>) -> bool {
    runtime_is_wsl(r) || host != runtime
}

pub open spec fn context_for(m: AgentV, host: Seq<char>, runtime: Seq<char>) -> Option<ContextV> {
    match m.runtime {
        Some(r) => if emits_context(r, host, runtime) {
            Some(
                ContextV {
                    runtime_kind: r.kind,
                    runtime_scope_id: m.runtime_scope_id,
                    runtime_display_name: m.runtime_display_name,
                    distro: r.distro,
                    agent_path: r.cli_path,
                    workspace_host_path: host,
                    workspace_runtime_path: runtime,
                },
            )
        } else {
            None
        },
        None => None,
    }
}

pub open spec fn opt_context(o: Option<AcpPermissionRuntimeContext>) -> Option<ContextV> {
    match o {
        Some(c) => Some(c@),
        None => None,
    }
}

fn same_path(a: &str, b: &str) -> (r: bool)
    ensures
        r == (a@ == b@),
{
    let x = chars_of(a);
    let y = chars_of(b);
    crate::text::eq_chars(x.as_slice(), y.as_slice())
}

pub fn should_emit_runtime_context(
    runtime: &AgentRuntimeMetadata,
    workspace_host_path: &str,
    workspace_runtime_path: &str,
) -> (r: bool)
    ensures
        r == emits_context(runtime@, workspace_host_path@, workspace_runtime_path@),
{
    runtime.is_wsl() || !same_path(workspace_host_path, workspace_runtime_path)
}

fn copy_str(s: &str) -> (r: String)
    ensures
        r@ == s@,
{
    let cs = chars_of(s);
    crate::text::string_from_chars(cs.as_slice())
}

impl AcpPermissionRuntimeContext {
    /// The context for a prompt of the agent `metadata`; none for an agent
    /// without a runtime, or one that runs natively on the same workspace
    /// path.
    pub fn for_agent(metadata: &AgentMetadata, workspace_host_path: &str, workspace_runtime_path: &str) -> (r:
        Option<Self>)
        ensures
            opt_context(r) == context_for(metadata@, workspace_host_path@, workspace_runtime_path@),
    {
        let runtime = match &metadata.runtime {
            Some(rt) => rt,
            None => return None,
        };
        if !should_emit_runtime_context(runtime, workspace_host_path, workspace_runtime_path) {
            return None;
        }
        Some(
            AcpPermissionRuntimeContext {
                runtime_kind: copy_text(&runtime.kind),
                runtime_scope_id: copy_opt_text(&metadata.runtime_scope_id),
                runtime_display_name: copy_opt_text(&metadata.runtime_display_name),
                distro: copy_opt_text(&runtime.distro),
                agent_path: copy_opt_text(&runtime.cli_path),
                workspace_host_path: copy_str(workspace_host_path),
                workspace_runtime_path: copy_str(workspace_runtime_path),
            },
        )
    }
}

// ---------------------------------------------------------------------------
// Confirmations
// ---------------------------------------------------------------------------

/// What a confirmation describes: the input's `description` string, else
/// the whole input as JSON, else nothing.
pub open spec fn description_of(raw: Option<RawInputV>) -> Seq<char> {
    match raw {
        Some(r) => match r.description {
            Some(d) => d,
            None => r.json,
        },
        None => Seq::empty(),
    }
}

pub open spec fn kind_label(k: AcpToolCallKind) -> Seq<char> {
    match k {
        AcpToolCallKind::Read => "read"@,
        AcpToolCallKind::Edit => "edit"@,
        AcpToolCallKind::Execute => "execute"@,
    }
}

pub open spec fn choice_of(o: OptionV) -> ChoiceV {
    ChoiceV { label: o.name, value: o.option_id }
}

/// The confirmation a permission request becomes.
pub open spec fn confirmation_of(d: RequestDataV) -> ConfirmationV {
    ConfirmationV {
        id: d.tool_call.tool_call_id,
        call_id: d.tool_call.tool_call_id,
        title: d.tool_call.title,
        action: None,
        description: description_of(d.tool_call.raw_input),
        command_type: match d.tool_call.kind {
            Some(k) => Some(kind_label(k)),
            None => None,
        },
        options: d.options.map_values(|o: OptionV| choice_of(o)),
    }
}

fn kind_text(k: AcpToolCallKind) -> (r: String)
    ensures
        r@ == kind_label(k),
{
    match k {
        AcpToolCallKind::Read => copy_str("read"),
        AcpToolCallKind::Edit => copy_str("edit"),
        AcpToolCallKind::Execute => copy_str("execute"),
    }
}

fn description_text(raw: &Option<RawToolInput>) -> (r: String)
    ensures
        r@ == description_of(
            match *raw {
                Some(x) => Some(x@),
                None => None,
            },
        ),
{
    match raw {
        Some(x) => match &x.description {
            Some(d) => copy_text(d),
            None => copy_text(&x.json),
        },
        None => String::new(),
    }
}

impl AcpPermissionRequestData {
    pub fn to_confirmation(&self) -> (r: Confirmation)
        ensures
            r@ == confirmation_of(self@),
    {
        let ghost src = self@.options;
        let mut options: Vec<ConfirmationOption> = Vec::new();
        let mut i: usize = 0;
        while i < self.options.len()
            invariant
                src == self@.options,
                src == self.options@.map_values(|o: AcpPermissionOptionData| o@),
                i <= self.options.len(),
                options@.map_values(|o: ConfirmationOption| o@) == src.take(i as int).map_values(
                    |o: OptionV| choice_of(o),
                ),
            decreases self.options.len() - i,
        {
            let o = &self.options[i];
            let c = ConfirmationOption { label: copy_text(&o.name), value: copy_text(&o.option_id) };
            proof {
                assert(src[i as int] == o@);
                assert(src.take(i + 1) =~= src.take(i as int).push(o@));
                assert(options@.push(c).map_values(|o: ConfirmationOption| o@) =~= options@.map_values(
                    |o: ConfirmationOption| o@,
                ).push(c@));
                assert(src.take(i + 1).map_values(|o: OptionV| choice_of(o)) =~= src.take(
                    i as int,
                ).map_values(|o: OptionV| choice_of(o)).push(choice_of(o@)));
            }
            options.push(c);
            i = i + 1;
        }
        assert(src.take(self.options.len() as int) =~= src);
        Confirmation {
            id: copy_text(&self.tool_call.tool_call_id),
            call_id: copy_text(&self.tool_call.tool_call_id),
            title: copy_opt_text(&self.tool_call.title),
            action: None,
            description: description_text(&self.tool_call.raw_input),
            command_type: match self.tool_call.kind {
                Some(k) => Some(kind_text(k)),
                None => None,
            },
            options,
        }
    }
}

impl Confirmation {
    pub fn duplicate(&self) -> (r: Self)
        ensures
            r@ == self@,
    {
        let mut options: Vec<ConfirmationOption> = Vec::new();
        let mut i: usize = 0;
        while i < self.options.len()
            invariant
                i <= self.options.len(),
                options@.map_values(|o: ConfirmationOption| o@) == self.options@.take(
                    i as int,
                ).map_values(|o: ConfirmationOption| o@),
            decreases self.options.len() - i,
        {
            let o = &self.options[i];
            let c = ConfirmationOption { label: copy_text(&o.label), value: copy_text(&o.value) };
            proof {
                assert(self.options@.take(i + 1) =~= self.options@.take(i as int).push(*o));
                assert(options@.push(c).map_values(|o: ConfirmationOption| o@) =~= options@.map_values(
                    |o: ConfirmationOption| o@,
                ).push(c@));
                assert(self.options@.take(i + 1).map_values(|o: ConfirmationOption| o@)
                    =~= self.options@.take(i as int).map_values(|o: ConfirmationOption| o@).push(o@));
            }
            options.push(c);
            i = i + 1;
        }
        assert(self.options@.take(self.options.len() as int) =~= self.options@);
        Confirmation {
            id: copy_text(&self.id),
            call_id: copy_text(&self.call_id),
            title: copy_opt_text(&self.title),
            action: copy_opt_text(&self.action),
            description: copy_text(&self.description),
            command_type: copy_opt_text(&self.command_type),
            options,
        }
    }
}

impl AcpPermissionEventData {
    /// The confirmation this event shows: the one it carries, or the one
    /// its request becomes.
    pub fn as_confirmation(&self) -> (r: Option<Confirmation>)
        ensures
            r matches Some(c) && match self {
                AcpPermissionEventData::Confirmation(k) => c@ == k@,
                AcpPermissionEventData::Request(req) => c@ == confirmation_of(req@),
            },
    {
        match self {
            AcpPermissionEventData::Confirmation(conf) => Some(conf.duplicate()),
            AcpPermissionEventData::Request(req) => Some(req.to_confirmation()),
        }
    }
}

// ---------------------------------------------------------------------------
// Laws
// ---------------------------------------------------------------------------

/// A WSL agent's prompt always carries a runtime context naming its distro
/// and both workspace paths, whatever the paths are; a native agent's
/// prompt carries one only when the paths differ; an agent without a
/// runtime never has one.
pub proof fn law_wsl_prompts_carry_context(m: AgentV, host: Seq<char>, runtime: Seq<char>)
    ensures
        (m.runtime matches Some(r) && runtime_is_wsl(r)) ==> (context_for(m, host, runtime) matches Some(
            c,
        ) && c.distro == m.runtime->Some_0.distro && c.workspace_host_path == host
            && c.workspace_runtime_path == runtime),
        (m.runtime matches Some(r) && !runtime_is_wsl(r)) ==> (context_for(m, host, runtime) is Some
            <==> host != runtime),
        m.runtime is None ==> context_for(m, host, runtime) is None,
{
}

/// A confirmation offers one choice per option of the request, in order,
/// labelled with the option's name and answering with its id; it is keyed
/// by the tool call's id.
pub proof fn law_confirmation_keeps_options(d: RequestDataV)
    ensures
        confirmation_of(d).options.len() == d.options.len(),
        forall|i: int|
            0 <= i < d.options.len() ==> #[trigger] confirmation_of(d).options[i] == (ChoiceV {
                label: d.options[i].name,
                value: d.options[i].option_id,
            }),
        confirmation_of(d).id == d.tool_call.tool_call_id,
        confirmation_of(d).call_id == d.tool_call.tool_call_id,
{
}

} // verus!
