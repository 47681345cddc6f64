//! The agent catalog rows: one selectable agent each, native or running in
//! a WSL distro, as the catalog logic reads them.
use vstd::prelude::*;
use crate::wsl::{copy_opt_text, copy_text, opt_text};

verus! {

#[derive(Debug, Clone, Copy, PartialEq, Eq, Structural)]
pub enum AgentType {
    Acp,
    Nanobot,
    OpenclawGateway,
    Aionrs,
}

/// Where a catalog row comes from.
#[derive(Debug, Clone, Copy, PartialEq, Eq, Structural)]
pub enum AgentSource {
    Builtin,
    Extension,
    Custom,
    Internal,
}

/// The binaries a row needs on the path.
#[derive(Debug, Clone, PartialEq, Eq)]
pub struct AgentSourceInfo {
    /// The primary CLI (e.g. `gemini` for a bridged row).
    pub binary_name: Option<String>,
    /// The bridge that launches it (e.g. `bun` for `bun x @pkg`).
    pub bridge_binary: Option<String>,
}

/// Where a row runs: `kind` is `native` or `wsl`.
#[derive(Debug, Clone, PartialEq, Eq)]
pub struct AgentRuntimeMetadata {
    pub kind: String,
    pub platform: Option<String>,
    pub distro: Option<String>,
    pub version: Option<u8>,
    pub state: Option<String>,
    pub cli_path: Option<String>,
    pub detected_at: Option<u64>,
    pub probe_mode: Option<String>,
}

/// One catalog row.
#[derive(Debug, Clone, PartialEq, Eq)]
pub struct AgentMetadata {
    pub id: String,
    pub name: String,
    pub backend: Option<String>,
    pub agent_type: AgentType,
    pub agent_source: AgentSource,
    pub agent_source_info: AgentSourceInfo,
    pub runtime: Option<AgentRuntimeMetadata>,
    pub runtime_scope_id: Option<String>,
    pub runtime_display_name: Option<String>,
    pub enabled: bool,
    pub available: bool,
    pub command: Option<String>,
    pub resolved_command: Option<String>,
    pub yolo_id: Option<String>,
    pub sort_order: i64,
}

pub struct SourceInfoV {
    pub binary_name: Option<Seq<char>>,
    pub bridge_binary: Option<Seq<char>>,
}

pub struct RuntimeV {
    pub kind: Seq<char>,
    pub platform: Option<Seq<char>>,
    pub distro: Option<Seq<char>>,
    pub version: Option<u8>,
    pub state: Option<Seq<char>>,
    pub cli_path: Option<Seq<char>>,
    pub detected_at: Option<u64>,
    pub probe_mode: Option<Seq<char>>,
}

pub struct AgentV {
    pub id: Seq<char>,
    pub name: Seq<char>,
    pub backend: Option<Seq<char>>,
    pub agent_type: AgentType,
    pub agent_source: AgentSource,
    pub agent_source_info: SourceInfoV,
    pub runtime: Option<RuntimeV>,
    pub runtime_scope_id: Option<Seq<char>>,
    pub runtime_display_name: Option<Seq<char>>,
    pub enabled: bool,
    pub available: bool,
    pub command: Option<Seq<char>>,
    pub resolved_command: Option<Seq<char>>,
    pub yolo_id: Option<Seq<char>>,
    pub sort_order: i64,
}

impl View for AgentSourceInfo {
    type V = SourceInfoV;

    open spec fn view(&self) -> SourceInfoV {
        SourceInfoV {
            binary_name: opt_text(self.binary_name),
            bridge_binary: opt_text(self.bridge_binary),
        }
    }
}

impl View for AgentRuntimeMetadata {
    type V = RuntimeV;

    open spec fn view(&self) -> RuntimeV {
        RuntimeV {
            kind: self.kind@,
            platform: opt_text(self.platform),
            distro: opt_text(self.distro),
            version: self.version,
            state: opt_text(self.state),
            cli_path: opt_text(self.cli_path),
            detected_at: self.detected_at,
            probe_mode: opt_text(self.probe_mode),
        }
    }
}

pub open spec fn opt_runtime(o: Option<AgentRuntimeMetadata>) -> Option<RuntimeV> {
    match o {
        Some(r) => Some(r@),
        None => None,
    }
}

impl View for AgentMetadata {
    type V = AgentV;

    open spec fn view(&self) -> AgentV {
        AgentV {
            id: self.id@,
            name: self.name@,
            backend: opt_text(self.backend),
            agent_type: self.agent_type,
            agent_source: self.agent_source,
            agent_source_info: self.agent_source_info@,
            runtime: opt_runtime(self.runtime),
            runtime_scope_id: opt_text(self.runtime_scope_id),
            runtime_display_name: opt_text(self.runtime_display_name),
            enabled: self.enabled,
            available: self.available,
            command: opt_text(self.command),
            resolved_command: opt_text(self.resolved_command),
            yolo_id: opt_text(self.yolo_id),
            sort_order: self.sort_order,
        }
    }
}

pub open spec fn agent_views(v: Seq<AgentMetadata>) -> Seq<AgentV> {
    v.map_values(|m: AgentMetadata| m@)
}

/// A runtime is a WSL runtime when its kind is `wsl`.
pub open spec fn runtime_is_wsl(r: RuntimeV) -> bool {
    r.kind == "wsl"@
}

impl AgentRuntimeMetadata {
    pub fn is_wsl(&self) -> (r: bool)
        ensures
            r == runtime_is_wsl(self@),
    {
        let k = crate::text::chars_of(self.kind.as_str());
        let w = crate::text::chars_of("wsl");
        crate::text::eq_chars(k.as_slice(), w.as_slice())
    }

    pub fn duplicate(&self) -> (r: Self)
        ensures
            r@ == self@,
    {
        AgentRuntimeMetadata {
            kind: copy_text(&self.kind),
            platform: copy_opt_text(&self.platform),
            distro: copy_opt_text(&self.distro),
            version: self.version,
            state: copy_opt_text(&self.state),
            cli_path: copy_opt_text(&self.cli_path),
            detected_at: self.detected_at,
            probe_mode: copy_opt_text(&self.probe_mode),
        }
    }
}

impl AgentSourceInfo {
    pub fn duplicate(&self) -> (r: Self)
        ensures
            r@ == self@,
    {
        AgentSourceInfo {
            binary_name: copy_opt_text(&self.binary_name),
            bridge_binary: copy_opt_text(&self.bridge_binary),
        }
    }
}

impl AgentMetadata {
    pub fn duplicate(&self) -> (r: Self)
        ensures
            r@ == self@,
    {
        AgentMetadata {
            id: copy_text(&self.id),
            name: copy_text(&self.name),
            backend: copy_opt_text(&self.backend),
            agent_type: self.agent_type,
            agent_source: self.agent_source,
            agent_source_info: self.agent_source_info.duplicate(),
            runtime: match &self.runtime {
                Some(r) => Some(r.duplicate()),
                None => None,
            },
            runtime_scope_id: copy_opt_text(&self.runtime_scope_id),
            runtime_display_name: copy_opt_text(&self.runtime_display_name),
            enabled: self.enabled,
            available: self.available,
            command: copy_opt_text(&self.command),
            resolved_command: copy_opt_text(&self.resolved_command),
            yolo_id: copy_opt_text(&self.yolo_id),
            sort_order: self.sort_order,
        }
    }
}

} // verus!
