//! The WSL probe as a state machine: it names each `wsl.exe` run to make,
//! and folds each run's outcome into the probe reports. The caller runs
//! the commands (with a timeout) and hands back what they produced.
use vstd::prelude::*;
use crate::text::{chars_of, clean_lines, eq_ignore_case, eq_ignore_case_chars};
use crate::wsl::{
    clean_shell_probe, copy_issues, copy_opt_text, copy_text, copy_texts, distro_views,
    issue_from_output, issue_text, issue_views, is_success, opt_text, parse_clean_shell_probe_stdout,
    parse_lines, parse_wsl_list_verbose, probe_views, stderr_summary, success, summarize_stderr,
    summary_defined, texts, unavailable_report, wsl_list, CliProbeV, DistroProbeV, DistroV,
    IssueV, ObservationV, RawV, ReportV, WslCliProbeResult, WslCommandObservation, WslDistro,
    WslDistroProbe, WslProbeCommandCategory, WslProbeErrorCode, WslProbeIssue, WslProbeReport,
    WslRawOutput, WslRunError, WslStatus, WslVersion, CLI_PROBE_SENTINEL, USER_SHELL_PROBE_MODE,
};

verus! {

/// Looks the CLI up with `command -v` and prints the sentinel with its exit code.
pub const CLI_PROBE_SCRIPT: &'static str =
    r#"command -v "$1"; code=$?; printf '\n__AIONUI_WSL_PROBE_EXIT__:%s\n' "$code"; exit "$code""#;

/// Runs a script in the user's login shell, found as the shell login tools would.
pub const USER_SHELL_EXEC_SCRIPT: &'static str = r#"script="$1"
shift
shell="${SHELL:-}"
if [ -z "$shell" ] || [ ! -x "$shell" ]; then
  user="$(id -un 2>/dev/null || true)"
  if [ -n "$user" ]; then
    shell="$(getent passwd "$user" 2>/dev/null | awk -F: '{print $7}')"
  fi
fi
if [ -z "$shell" ] || [ ! -x "$shell" ]; then
  user="${user:-$(id -un 2>/dev/null || true)}"
  if [ -n "$user" ] && [ -r /etc/passwd ]; then
    shell="$(awk -F: -v u="$user" '$1 == u {print $7; exit}' /etc/passwd)"
  fi
fi
if [ -z "$shell" ] || [ ! -x "$shell" ]; then
  shell="/bin/sh"
fi
exec "$shell" -lc "$script" "$@"
"#;

// ---------------------------------------------------------------------------
// One observed run
// ---------------------------------------------------------------------------

pub enum RunErrorV {
    Spawn(Seq<char>),
    Timeout,
}

impl View for WslRunError {
    type V = RunErrorV;

    open spec fn view(&self) -> RunErrorV {
        match self {
            WslRunError::Spawn(m) => RunErrorV::Spawn(m@),
            WslRunError::Timeout => RunErrorV::Timeout,
        }
    }
}

pub open spec fn run_view(r: Result<WslRawOutput, WslRunError>) -> Result<RawV, RunErrorV> {
    match r {
        Ok(raw) => Ok(raw@),
        Err(e) => Err(e@),
    }
}

/// A run that produced output, with what was observed of it; or the issue
/// of a run that produced none.
pub type Observed = Result<(WslRawOutput, WslCommandObservation), WslProbeIssue>;

pub type ObservedV = Result<(RawV, ObservationV), IssueV>;

pub open spec fn observed_view(o: Observed) -> ObservedV {
    match o {
        Ok((raw, obs)) => Ok((raw@, obs@)),
        Err(i) => Err(i@),
    }
}

pub open spec fn observed_seq(v: Seq<Observed>) -> Seq<ObservedV> {
    v.map_values(|o: Observed| observed_view(o))
}

/// The stderr of a run that produced output can be summarised.
pub open spec fn run_summarizable(run: Result<RawV, RunErrorV>) -> bool {
    match run {
        Ok(raw) => summary_defined(raw.stderr),
        Err(_) => true,
    }
}

pub open spec fn observe(category: WslProbeCommandCategory, run: Result<RawV, RunErrorV>, latency_ms: u64) -> ObservedV {
    match run {
        Ok(raw) => Ok(
            (
                raw,
                ObservationV {
                    category,
                    latency_ms,
                    status_code: raw.status_code,
                    stderr_summary: stderr_summary(raw.stderr),
                },
            ),
        ),
        Err(RunErrorV::Timeout) => Err(
            IssueV {
                category,
                code: WslProbeErrorCode::Timeout,
                message: "wsl.exe command timed out"@,
                stderr_summary: None,
            },
        ),
        Err(RunErrorV::Spawn(m)) => Err(
            IssueV {
                category,
                code: WslProbeErrorCode::WslCommandUnavailable,
                message: m,
                stderr_summary: None,
            },
        ),
    }
}

/// What was observed of one run of `wsl.exe` that took `latency_ms`.
pub fn run_observed(
    category: WslProbeCommandCategory,
    run: Result<WslRawOutput, WslRunError>,
    latency_ms: u64,
) -> (r: Observed)
    requires
        run_summarizable(run_view(run)),
    ensures
        observed_view(r) == observe(category, run_view(run), latency_ms),
{
    match run {
        Ok(raw) => {
            let summary = summarize_stderr(raw.stderr.as_str());
            let observation = WslCommandObservation {
                category,
                latency_ms,
                status_code: raw.status_code,
                stderr_summary: summary,
            };
            Ok((raw, observation))
        },
        Err(WslRunError::Timeout) => Err(
            WslProbeIssue {
                category,
                code: WslProbeErrorCode::Timeout,
                message: String::from_str("wsl.exe command timed out"),
                stderr_summary: None,
            },
        ),
        Err(WslRunError::Spawn(message)) => Err(
            WslProbeIssue {
                category,
                code: WslProbeErrorCode::WslCommandUnavailable,
                message,
                stderr_summary: None,
            },
        ),
    }
}

// ---------------------------------------------------------------------------
// The base probe: `--status`, `--version`, `--list --verbose`
// ---------------------------------------------------------------------------

pub open spec fn output_issue(
    category: WslProbeCommandCategory,
    message: Seq<char>,
    raw: RawV,
    obs: ObservationV,
) -> IssueV {
    IssueV {
        category,
        code: WslProbeErrorCode::CommandFailed,
        message: issue_text(message, raw.status_code),
        stderr_summary: obs.stderr_summary,
    }
}

/// The status lines, or the report of a host without a working WSL.
pub open spec fn status_stage(o: ObservedV) -> Result<Seq<Seq<char>>, ReportV> {
    match o {
        Ok((raw, obs)) => if success(raw) {
            Ok(clean_lines(raw.stdout))
        } else {
            Err(
                unavailable_report(
                    output_issue(
                        WslProbeCommandCategory::Status,
                        "wsl.exe --status failed"@,
                        raw,
                        obs,
                    ),
                ),
            )
        },
        Err(issue) => Err(unavailable_report(issue)),
    }
}

/// The version lines, or the issue that kept them out.
pub open spec fn version_stage(o: ObservedV) -> (Option<Seq<Seq<char>>>, Option<IssueV>) {
    match o {
        Ok((raw, obs)) => if success(raw) {
            (Some(clean_lines(raw.stdout)), None)
        } else {
            (
                None,
                Some(
                    output_issue(
                        WslProbeCommandCategory::Version,
                        "wsl.exe --version failed"@,
                        raw,
                        obs,
                    ),
                ),
            )
        },
        Err(issue) => (None, Some(issue)),
    }
}

/// The listed distros, or the issue that kept them out (an empty listing
/// is an issue too).
pub open spec fn list_stage(o: ObservedV) -> (Seq<DistroV>, Option<IssueV>) {
    match o {
        Ok((raw, obs)) => if success(raw) {
            match wsl_list(raw.stdout) {
                Ok(ds) => if ds.len() == 0 {
                    (
                        ds,
                        Some(
                            IssueV {
                                category: WslProbeCommandCategory::ListVerbose,
                                code: WslProbeErrorCode::NoDistro,
                                message: "wsl.exe returned no distros"@,
                                stderr_summary: obs.stderr_summary,
                            },
                        ),
                    )
                } else {
                    (ds, None)
                },
                Err(m) => (
                    Seq::empty(),
                    Some(
                        IssueV {
                            category: WslProbeCommandCategory::ListVerbose,
                            code: WslProbeErrorCode::ParseFailed,
                            message: m,
                            stderr_summary: obs.stderr_summary,
                        },
                    ),
                ),
            }
        } else {
            (
                Seq::empty(),
                Some(
                    output_issue(
                        WslProbeCommandCategory::ListVerbose,
                        "wsl.exe --list --verbose failed"@,
                        raw,
                        obs,
                    ),
                ),
            )
        },
        Err(issue) => (Seq::empty(), Some(issue)),
    }
}

pub open spec fn issue_opt_view(o: Option<WslProbeIssue>) -> Option<IssueV> {
    match o {
        Some(i) => Some(i@),
        None => None,
    }
}

pub open spec fn opt_issue(o: Option<IssueV>) -> Seq<IssueV> {
    match o {
        Some(i) => seq![i],
        None => Seq::empty(),
    }
}

/// A distro that is not `Running` (any case) is skipped, never probed.
pub open spec fn distro_entry(d: DistroV) -> DistroProbeV {
    DistroProbeV {
        distro: d,
        cli_probe: None,
        skipped_reason: if eq_ignore_case(d.state, "running"@) {
            None
        } else {
            Some("distro is not Running"@)
        },
    }
}

pub open spec fn base_report(
    status: Seq<Seq<char>>,
    version: (Option<Seq<Seq<char>>>, Option<IssueV>),
    list: (Seq<DistroV>, Option<IssueV>),
) -> ReportV {
    ReportV {
        wsl_available: true,
        status: Some(status),
        version: version.0,
        distros: list.0.map_values(|d: DistroV| distro_entry(d)),
        issues: opt_issue(version.1) + opt_issue(list.1),
    }
}

/// The base report once enough runs were observed: after a failed
/// `--status` run, or after all three runs.
pub open spec fn base_of(events: Seq<ObservedV>) -> Option<ReportV> {
    if events.len() >= 1 && status_stage(events[0]) is Err {
        Some(status_stage(events[0])->Err_0)
    } else if events.len() >= 3 {
        Some(
            base_report(
                status_stage(events[0])->Ok_0,
                version_stage(events[1]),
                list_stage(events[2]),
            ),
        )
    } else {
        None
    }
}

pub fn status_step(o: &Observed) -> (r: Result<Vec<String>, WslProbeReport>)
    ensures
        match (r, status_stage(observed_view(*o))) {
            (Ok(lines), Ok(l)) => texts(lines@) == l,
            (Err(rep), Err(r2)) => rep@ == r2,
            _ => false,
        },
{
    match o {
        Ok((raw, obs)) => {
            if is_success(raw) {
                Ok(parse_lines(raw.stdout.as_str()))
            } else {
                let issue = issue_from_output(
                    WslProbeCommandCategory::Status,
                    WslProbeErrorCode::CommandFailed,
                    "wsl.exe --status failed",
                    raw,
                    obs.duplicate(),
                );
                Err(WslProbeReport::unavailable(issue))
            }
        },
        Err(issue) => Err(WslProbeReport::unavailable(issue.duplicate())),
    }
}

pub fn version_step(o: &Observed) -> (r: (Option<WslVersion>, Option<WslProbeIssue>))
    ensures
        match (r.0, version_stage(observed_view(*o)).0) {
            (Some(v), Some(l)) => texts(v.lines@) == l,
            (None, None) => true,
            _ => false,
        },
        match (r.1, version_stage(observed_view(*o)).1) {
            (Some(a), Some(b)) => a@ == b,
            (None, None) => true,
            _ => false,
        },
{
    match o {
        Ok((raw, obs)) => {
            if is_success(raw) {
                (Some(WslVersion { lines: parse_lines(raw.stdout.as_str()) }), None)
            } else {
                (
                    None,
                    Some(
                        issue_from_output(
                            WslProbeCommandCategory::Version,
                            WslProbeErrorCode::CommandFailed,
                            "wsl.exe --version failed",
                            raw,
                            obs.duplicate(),
                        ),
                    ),
                )
            }
        },
        Err(issue) => (None, Some(issue.duplicate())),
    }
}

pub fn list_step(o: &Observed) -> (r: (Vec<WslDistro>, Option<WslProbeIssue>))
    ensures
        distro_views(r.0@) == list_stage(observed_view(*o)).0,
        match (r.1, list_stage(observed_view(*o)).1) {
            (Some(a), Some(b)) => a@ == b,
            (None, None) => true,
            _ => false,
        },
{
    match o {
        Ok((raw, obs)) => {
            if is_success(raw) {
                match parse_wsl_list_verbose(raw.stdout.as_str()) {
                    Ok(distros) => {
                        if distros.len() == 0 {
                            let issue = WslProbeIssue {
                                category: WslProbeCommandCategory::ListVerbose,
                                code: WslProbeErrorCode::NoDistro,
                                message: String::from_str("wsl.exe returned no distros"),
                                stderr_summary: copy_opt_text(&obs.stderr_summary),
                            };
                            (distros, Some(issue))
                        } else {
                            (distros, None)
                        }
                    },
                    Err(message) => {
                        let issue = WslProbeIssue {
                            category: WslProbeCommandCategory::ListVerbose,
                            code: WslProbeErrorCode::ParseFailed,
                            message,
                            stderr_summary: copy_opt_text(&obs.stderr_summary),
                        };
                        let none: Vec<WslDistro> = Vec::new();
                        assert(distro_views(none@) =~= Seq::<DistroV>::empty());
                        (none, Some(issue))
                    },
                }
            } else {
                let issue = issue_from_output(
                    WslProbeCommandCategory::ListVerbose,
                    WslProbeErrorCode::CommandFailed,
                    "wsl.exe --list --verbose failed",
                    raw,
                    obs.duplicate(),
                );
                let none: Vec<WslDistro> = Vec::new();
                assert(distro_views(none@) =~= Seq::<DistroV>::empty());
                (none, Some(issue))
            }
        },
        Err(issue) => {
            let none: Vec<WslDistro> = Vec::new();
            assert(distro_views(none@) =~= Seq::<DistroV>::empty());
            (none, Some(issue.duplicate()))
        },
    }
}

fn distro_entry_exec(d: WslDistro) -> (r: WslDistroProbe)
    ensures
        r@ == distro_entry(d@),
{
    let state = chars_of(d.state.as_str());
    let running = chars_of("running");
    let skipped_reason = if eq_ignore_case_chars(state.as_slice(), running.as_slice()) {
        None
    } else {
        Some(String::from_str("distro is not Running"))
    };
    WslDistroProbe { distro: d, cli_probe: None, skipped_reason }
}

/// Assemble the base report from the three runs' results.
pub fn assemble_base(
    status: Vec<String>,
    version: (Option<WslVersion>, Option<WslProbeIssue>),
    list: (Vec<WslDistro>, Option<WslProbeIssue>),
) -> (r: WslProbeReport)
    ensures
        r@ == (ReportV {
            wsl_available: true,
            status: Some(texts(status@)),
            version: match version.0 {
                Some(v) => Some(texts(v.lines@)),
                None => None,
            },
            distros: distro_views(list.0@).map_values(|d: DistroV| distro_entry(d)),
            issues: opt_issue(issue_opt_view(version.1)) + opt_issue(issue_opt_view(list.1)),
        }),
{
    let (version, version_issue) = version;
    let (distros, list_issue) = list;
    let ghost dv = distro_views(distros@);
    let ghost expected_issues = opt_issue(issue_opt_view(version_issue)) + opt_issue(issue_opt_view(list_issue));
    let mut issues: Vec<WslProbeIssue> = Vec::new();
    match version_issue {
        Some(i) => {
            issues.push(i);
        },
        None => {},
    }
    match list_issue {
        Some(i) => {
            issues.push(i);
        },
        None => {},
    }
    assert(issue_views(issues@) =~= expected_issues);
    let mut probes: Vec<WslDistroProbe> = Vec::new();
    let mut i: usize = 0;
    assert(dv.take(0).map_values(|d: DistroV| distro_entry(d)) =~= probe_views(probes@));
    while i < distros.len()
        invariant
            i <= distros.len(),
            dv == distro_views(distros@),
            probe_views(probes@) == dv.take(i as int).map_values(|d: DistroV| distro_entry(d)),
        decreases distros.len() - i,
    {
        let p = distro_entry_exec(distros[i].duplicate());
        proof {
            assert(probe_views(probes@.push(p)) =~= probe_views(probes@).push(p@));
            assert(dv.take(i + 1).map_values(|d: DistroV| distro_entry(d)) =~= dv.take(
                i as int,
            ).map_values(|d: DistroV| distro_entry(d)).push(distro_entry(dv[i as int])));
        }
        probes.push(p);
        i = i + 1;
    }
    assert(dv.take(distros.len() as int) =~= dv);
    assert(issue_views(issues@) =~= expected_issues);
    WslProbeReport {
        wsl_available: true,
        status: Some(WslStatus { lines: status }),
        version,
        distros: probes,
        issues,
    }
}


// ---------------------------------------------------------------------------
// The CLI probe inside one distro
// ---------------------------------------------------------------------------

/// Arguments of `wsl.exe` that look `command` up in the login shell of `distro`.
pub open spec fn cli_args(distro: Seq<char>, command: Seq<char>) -> Seq<Seq<char>> {
    seq![
        "-d"@,
        distro,
        "--exec"@,
        "sh"@,
        "-lc"@,
        USER_SHELL_EXEC_SCRIPT@,
        "aionui-wsl-user-shell"@,
        CLI_PROBE_SCRIPT@,
        "aionui-wsl-probe"@,
        command,
    ]
}

pub fn cli_probe_args(distro: &str, command: &str) -> (r: Vec<String>)
    ensures
        texts(r@) == cli_args(distro@, command@),
{
    let mut r: Vec<String> = Vec::new();
    r.push(String::from_str("-d"));
    r.push(String::from_str(distro));
    r.push(String::from_str("--exec"));
    r.push(String::from_str("sh"));
    r.push(String::from_str("-lc"));
    r.push(String::from_str(USER_SHELL_EXEC_SCRIPT));
    r.push(String::from_str("aionui-wsl-user-shell"));
    r.push(String::from_str(CLI_PROBE_SCRIPT));
    r.push(String::from_str("aionui-wsl-probe"));
    r.push(String::from_str(command));
    assert(texts(r@) =~= cli_args(distro@, command@));
    r
}

pub open spec fn polluted_message(command: Seq<char>) -> Seq<char> {
    "user-shell probe for '"@ + command + "' did not return sentinel output"@
}

/// What the probe of `command` in one distro found.
pub open spec fn cli_stage(command: Seq<char>, o: ObservedV) -> Result<CliProbeV, IssueV> {
    match o {
        Err(i) => Err(i),
        Ok((raw, obs)) => match clean_shell_probe(raw.stdout) {
            None => Err(
                IssueV {
                    category: WslProbeCommandCategory::UserShellCliProbe,
                    code: WslProbeErrorCode::StdoutPolluted,
                    message: polluted_message(command),
                    stderr_summary: obs.stderr_summary,
                },
            ),
            Some((found, code)) => Ok(
                CliProbeV {
                    command,
                    found_path: found,
                    available: code == 0 && success(raw),
                    probe_mode: USER_SHELL_PROBE_MODE@,
                    observation: obs,
                },
            ),
        },
    }
}

pub fn cli_step(command: &str, o: &Observed) -> (r: Result<WslCliProbeResult, WslProbeIssue>)
    ensures
        match (r, cli_stage(command@, observed_view(*o))) {
            (Ok(a), Ok(b)) => a@ == b,
            (Err(a), Err(b)) => a@ == b,
            _ => false,
        },
{
    match o {
        Err(issue) => Err(issue.duplicate()),
        Ok((raw, obs)) => match parse_clean_shell_probe_stdout(raw.stdout.as_str()) {
            None => {
                let mut m = String::from_str("user-shell probe for '");
                m.append(command);
                m.append("' did not return sentinel output");
                Err(
                    WslProbeIssue {
                        category: WslProbeCommandCategory::UserShellCliProbe,
                        code: WslProbeErrorCode::StdoutPolluted,
                        message: m,
                        stderr_summary: copy_opt_text(&obs.stderr_summary),
                    },
                )
            },
            Some((found_path, sentinel_code)) => Ok(
                WslCliProbeResult {
                    command: String::from_str(command),
                    found_path,
                    available: sentinel_code == 0 && is_success(raw),
                    probe_mode: String::from_str(USER_SHELL_PROBE_MODE),
                    observation: obs.duplicate(),
                },
            ),
        },
    }
}

// ---------------------------------------------------------------------------
// A CLI probe over the base report
// ---------------------------------------------------------------------------

/// Number of distro entries that are probed (not skipped).
pub open spec fn unskipped_count(dps: Seq<DistroProbeV>) -> nat
    decreases dps.len(),
{
    if dps.len() == 0 {
        0
    } else {
        unskipped_count(dps.drop_last()) + if dps.last().skipped_reason is None {
            1nat
        } else {
            0nat
        }
    }
}

/// Number of CLI probe runs that one command needs over `base`.
pub open spec fn runnable_count(base: ReportV) -> nat {
    if base.wsl_available {
        unskipped_count(base.distros)
    } else {
        0
    }
}

/// The distro of the `k`-th entry that is probed.
pub open spec fn nth_runnable(dps: Seq<DistroProbeV>, k: nat) -> DistroV
    decreases dps.len(),
{
    if dps.len() == 0 {
        arbitrary()
    } else if dps[0].skipped_reason is None {
        if k == 0 {
            dps[0].distro
        } else {
            nth_runnable(dps.drop_first(), (k - 1) as nat)
        }
    } else {
        nth_runnable(dps.drop_first(), k)
    }
}

/// The entries with each probed distro's result filled in (its `k`-th
/// probed distro takes `outs[k]`), and the issues of the probes that failed.
pub open spec fn command_fold(dps: Seq<DistroProbeV>, command: Seq<char>, outs: Seq<ObservedV>) -> (
    Seq<DistroProbeV>,
    Seq<IssueV>,
)
    decreases dps.len(),
{
    if dps.len() == 0 {
        (Seq::empty(), Seq::empty())
    } else {
        let prev = command_fold(dps.drop_last(), command, outs);
        let d = dps.last();
        if d.skipped_reason is Some {
            (prev.0.push(d), prev.1)
        } else {
            let k = unskipped_count(dps.drop_last());
            match cli_stage(command, outs[k as int]) {
                Ok(c) => (
                    prev.0.push(
                        DistroProbeV {
                            distro: d.distro,
                            cli_probe: Some(c),
                            skipped_reason: d.skipped_reason,
                        },
                    ),
                    prev.1,
                ),
                Err(i) => (
                    prev.0.push(
                        DistroProbeV {
                            distro: d.distro,
                            cli_probe: None,
                            skipped_reason: d.skipped_reason,
                        },
                    ),
                    prev.1.push(i),
                ),
            }
        }
    }
}

/// The report for `command`: the base report unchanged when WSL is not
/// available, else the base with each probed distro's CLI result.
pub open spec fn command_report(base: ReportV, command: Seq<char>, outs: Seq<ObservedV>) -> ReportV {
    if !base.wsl_available {
        base
    } else {
        let f = command_fold(base.distros, command, outs);
        ReportV {
            wsl_available: true,
            status: base.status,
            version: base.version,
            distros: f.0,
            issues: base.issues + f.1,
        }
    }
}

proof fn lemma_unskipped_prefix(dps: Seq<DistroProbeV>, i: int)
    requires
        0 <= i <= dps.len(),
    ensures
        unskipped_count(dps.take(i)) <= unskipped_count(dps),
    decreases dps.len() - i,
{
    if i < dps.len() {
        lemma_unskipped_prefix(dps, i + 1);
        assert(dps.take(i + 1).drop_last() =~= dps.take(i));
    } else {
        assert(dps.take(i) =~= dps);
    }
}

/// The report of `command` over `base`, given the outcome of each CLI
/// probe run in order.
pub fn probe_command_from_base(base: &WslProbeReport, command: &str, outs: &[Observed]) -> (r: WslProbeReport)
    requires
        outs.len() >= runnable_count(base@),
    ensures
        r@ == command_report(base@, command@, observed_seq(outs@)),
{
    if !base.wsl_available {
        return base.duplicate();
    }
    let ghost dps = base@.distros;
    let ghost ov = observed_seq(outs@);
    let mut issues: Vec<WslProbeIssue> = copy_issues(&base.issues);
    let mut probes: Vec<WslDistroProbe> = Vec::new();
    let mut extra: Ghost<Seq<IssueV>> = Ghost(Seq::empty());
    let mut k: usize = 0;
    let mut i: usize = 0;
    assert(dps.take(0) =~= Seq::<DistroProbeV>::empty());
    assert(issue_views(issues@) =~= base@.issues + extra@);
    while i < base.distros.len()
        invariant
            dps == base@.distros,
            dps.len() == base.distros.len(),
            ov == observed_seq(outs@),
            outs.len() >= unskipped_count(dps),
            i <= base.distros.len(),
            k == unskipped_count(dps.take(i as int)),
            command_fold(dps.take(i as int), command@, ov) == (probe_views(probes@), extra@),
            issue_views(issues@) == base@.issues + extra@,
        decreases base.distros.len() - i,
    {
        let ghost pre = dps.take(i as int);
        assert(dps.take(i + 1).drop_last() =~= pre);
        assert(dps.take(i + 1).last() == dps[i as int]);
        proof {
            lemma_unskipped_prefix(dps, i + 1);
        }
        let mut entry = base.distros[i].duplicate();
        if entry.skipped_reason.is_none() {
            let res = cli_step(command, &outs[k]);
            match res {
                Ok(probe) => {
                    entry.cli_probe = Some(probe);
                },
                Err(issue) => {
                    entry.cli_probe = None;
                    proof {
                        assert(issue_views(issues@.push(issue)) =~= issue_views(issues@).push(issue@));
                        extra@ = extra@.push(issue@);
                    }
                    issues.push(issue);
                    assert(issue_views(issues@) =~= base@.issues + extra@);
                },
            }
            k = k + 1;
        }
        proof {
            assert(probe_views(probes@.push(entry)) =~= probe_views(probes@).push(entry@));
        }
        probes.push(entry);
        i = i + 1;
    }
    assert(dps.take(base.distros.len() as int) =~= dps);
    WslProbeReport {
        wsl_available: true,
        status: match &base.status {
            Some(s) => Some(WslStatus { lines: copy_texts(&s.lines) }),
            None => None,
        },
        version: match &base.version {
            Some(v) => Some(WslVersion { lines: copy_texts(&v.lines) }),
            None => None,
        },
        distros: probes,
        issues,
    }
}


// ---------------------------------------------------------------------------
// The probe session
// ---------------------------------------------------------------------------

/// One run of `wsl.exe` that the session asks for.
pub struct WslProbeRequest {
    pub category: WslProbeCommandCategory,
    pub args: Vec<String>,
}

pub struct RequestV {
    pub category: WslProbeCommandCategory,
    pub args: Seq<Seq<char>>,
}

impl View for WslProbeRequest {
    type V = RequestV;

    open spec fn view(&self) -> RequestV {
        RequestV { category: self.category, args: texts(self.args@) }
    }
}

/// `WslService::probe` (one command or none) or `WslService::probe_commands`
/// as a state machine: ask [`WslProbeSession::next_request`] which run to
/// make, run it, and hand the outcome to [`WslProbeSession::accept`] until
/// no run is asked for.
pub struct WslProbeSession {
    commands: Vec<String>,
    single: bool,
    base_events: Vec<Observed>,
    base: Option<WslProbeReport>,
    current: Vec<Observed>,
    reports: Vec<WslProbeReport>,
    chunks: Ghost<Seq<Seq<ObservedV>>>,
}

pub struct SessionV {
    pub commands: Seq<Seq<char>>,
    pub single: bool,
    pub base_events: Seq<ObservedV>,
    pub base: Option<ReportV>,
    pub chunks: Seq<Seq<ObservedV>>,
    pub current: Seq<ObservedV>,
    pub reports: Seq<ReportV>,
}

pub open spec fn report_views(v: Seq<WslProbeReport>) -> Seq<ReportV> {
    v.map_values(|r: WslProbeReport| r@)
}

pub open spec fn opt_report(o: Option<WslProbeReport>) -> Option<ReportV> {
    match o {
        Some(r) => Some(r@),
        None => None,
    }
}

impl View for WslProbeSession {
    type V = SessionV;

    closed spec fn view(&self) -> SessionV {
        SessionV {
            commands: texts(self.commands@),
            single: self.single,
            base_events: observed_seq(self.base_events@),
            base: opt_report(self.base),
            chunks: self.chunks@,
            current: observed_seq(self.current@),
            reports: report_views(self.reports@),
        }
    }
}

/// No run is left to make.
pub open spec fn session_done(s: SessionV) -> bool {
    (!s.single && s.commands.len() == 0) || (s.base is Some && s.reports.len() == s.commands.len())
}

/// What holds of a session between two runs, except that the reports of
/// commands whose runs are all in may not be folded yet.
pub open spec fn session_unsettled_wf(s: SessionV) -> bool {
    &&& s.single ==> s.commands.len() <= 1
    &&& s.base_events.len() <= 3
    &&& s.base == base_of(s.base_events)
    &&& s.base_events.len() >= 2 ==> status_stage(s.base_events[0]) is Ok
    &&& (!s.single && s.commands.len() == 0) ==> s.base_events.len() == 0
    &&& s.base is None ==> s.chunks.len() == 0 && s.current.len() == 0 && s.reports.len() == 0
    &&& s.base is Some ==> {
        let b = s.base->Some_0;
        &&& s.chunks.len() == s.reports.len()
        &&& s.reports.len() <= s.commands.len()
        &&& forall|i: int|
            0 <= i < s.chunks.len() ==> (#[trigger] s.chunks[i]).len() == runnable_count(b)
                && s.reports[i] == command_report(b, s.commands[i], s.chunks[i])
        &&& s.current.len() <= runnable_count(b)
        &&& s.reports.len() == s.commands.len() ==> s.current.len() == 0
    }
}

/// The reports so far are exactly those that the runs observed so far give.
pub open spec fn session_wf(s: SessionV) -> bool {
    &&& session_unsettled_wf(s)
    &&& s.base is Some ==> (s.reports.len() < s.commands.len() ==> s.current.len() < runnable_count(
        s.base->Some_0,
    ))
}

/// The run the session asks for next.
pub open spec fn next_request_of(s: SessionV) -> Option<RequestV> {
    if session_done(s) {
        None
    } else if s.base is None {
        if s.base_events.len() == 0 {
            Some(RequestV { category: WslProbeCommandCategory::Status, args: seq!["--status"@] })
        } else if s.base_events.len() == 1 {
            Some(RequestV { category: WslProbeCommandCategory::Version, args: seq!["--version"@] })
        } else {
            Some(
                RequestV {
                    category: WslProbeCommandCategory::ListVerbose,
                    args: seq!["--list"@, "--verbose"@],
                },
            )
        }
    } else {
        Some(
            RequestV {
                category: WslProbeCommandCategory::UserShellCliProbe,
                args: cli_args(
                    nth_runnable(s.base->Some_0.distros, s.current.len()).name,
                    s.commands[s.reports.len() as int],
                ),
            },
        )
    }
}

/// Close every command whose runs are all in.
pub open spec fn settle(s: SessionV) -> SessionV
    decreases s.commands.len() - s.reports.len(),
{
    if s.base is Some && s.reports.len() < s.commands.len() && s.current.len() == runnable_count(
        s.base->Some_0,
    ) {
        settle(
            SessionV {
                reports: s.reports.push(
                    command_report(s.base->Some_0, s.commands[s.reports.len() as int], s.current),
                ),
                chunks: s.chunks.push(s.current),
                current: Seq::empty(),
                ..s
            },
        )
    } else {
        s
    }
}

/// The session after the outcome `o` of the run it asked for.
pub open spec fn accept_spec(s: SessionV, o: ObservedV) -> SessionV {
    if s.base is None {
        let ev = s.base_events.push(o);
        settle(SessionV { base_events: ev, base: base_of(ev), ..s })
    } else {
        settle(SessionV { current: s.current.push(o), ..s })
    }
}

proof fn lemma_settle_wf(s: SessionV)
    requires
        session_unsettled_wf(s),
    ensures
        session_wf(settle(s)),
        settle(s).commands == s.commands,
        settle(s).single == s.single,
        settle(s).base_events == s.base_events,
        settle(s).base == s.base,
    decreases s.commands.len() - s.reports.len(),
{
    if s.base is Some && s.reports.len() < s.commands.len() && s.current.len() == runnable_count(
        s.base->Some_0,
    ) {
        let b = s.base->Some_0;
        let t = SessionV {
            reports: s.reports.push(command_report(b, s.commands[s.reports.len() as int], s.current)),
            chunks: s.chunks.push(s.current),
            current: Seq::empty(),
            ..s
        };
        assert forall|i: int| 0 <= i < t.chunks.len() implies (#[trigger] t.chunks[i]).len()
            == runnable_count(b) && t.reports[i] == command_report(b, t.commands[i], t.chunks[i]) by {
            if i < s.chunks.len() {
                assert(t.chunks[i] == s.chunks[i]);
                assert(t.reports[i] == s.reports[i]);
            }
        }
        lemma_settle_wf(t);
    }
}

impl WslProbeSession {
    /// The session of `WslService::probe(cli_command)`.
    pub fn for_probe(cli_command: Option<&str>) -> (r: Self)
        ensures
            session_wf(r@),
            r@.single,
            r@.commands == match cli_command {
                Some(c) => seq![c@],
                None => Seq::<Seq<char>>::empty(),
            },
            r@.base_events.len() == 0,
    {
        let mut commands: Vec<String> = Vec::new();
        match cli_command {
            Some(c) => {
                commands.push(String::from_str(c));
            },
            None => {},
        }
        let r = WslProbeSession {
            commands,
            single: true,
            base_events: Vec::new(),
            base: None,
            current: Vec::new(),
            reports: Vec::new(),
            chunks: Ghost(Seq::empty()),
        };
        assert(r@.commands =~= match cli_command {
            Some(c) => seq![c@],
            None => Seq::<Seq<char>>::empty(),
        });
        assert(r@.base_events =~= Seq::<ObservedV>::empty());
        r
    }

    /// The session of `WslService::probe_commands(cli_commands)`: no run at
    /// all when there is no command.
    pub fn for_commands(cli_commands: Vec<String>) -> (r: Self)
        ensures
            session_wf(r@),
            !r@.single,
            r@.commands == texts(cli_commands@),
            r@.base_events.len() == 0,
            r@ == commands_session(texts(cli_commands@)),
    {
        let r = WslProbeSession {
            commands: cli_commands,
            single: false,
            base_events: Vec::new(),
            base: None,
            current: Vec::new(),
            reports: Vec::new(),
            chunks: Ghost(Seq::empty()),
        };
        assert(r@.base_events =~= Seq::<ObservedV>::empty());
        assert(r@.current =~= Seq::<ObservedV>::empty());
        assert(r@.reports =~= Seq::<ReportV>::empty());
        assert(r@.chunks =~= Seq::<Seq<ObservedV>>::empty());
        assert(r@ =~= commands_session(texts(cli_commands@)));
        r
    }

    pub fn is_done(&self) -> (r: bool)
        requires
            session_wf(self@),
        ensures
            r == session_done(self@),
    {
        (!self.single && self.commands.len() == 0) || (self.base.is_some() && self.reports.len()
            == self.commands.len())
    }

    fn runnable_distro_name(base: &WslProbeReport, k: usize) -> (r: String)
        requires
            base.wsl_available,
            k < unskipped_count(base@.distros),
        ensures
            r@ == nth_runnable(base@.distros, k as nat).name,
    {
        let ghost dps = base@.distros;
        let mut i: usize = 0;
        let mut left: usize = k;
        assert(dps.skip(0) =~= dps);
        proof {
            lemma_unskipped_front(dps);
        }
        while i < base.distros.len()
            invariant
                dps == base@.distros,
                i <= base.distros.len(),
                left < unskipped_front(dps.skip(i as int)),
                nth_runnable(dps, k as nat) == nth_runnable(dps.skip(i as int), left as nat),
            decreases base.distros.len() - i,
        {
            let ghost rest = dps.skip(i as int);
            assert(rest[0] == dps[i as int]);
            assert(rest.drop_first() =~= dps.skip(i + 1));
            if base.distros[i].skipped_reason.is_none() {
                if left == 0 {
                    return copy_text(&base.distros[i].distro.name);
                }
                left = left - 1;
            }
            i = i + 1;
        }
        assert(dps.skip(i as int).len() == 0);
        proof {
            assert(false);
        }
        String::new()
    }

    /// The run to make next, or `None` once the probe is complete.
    pub fn next_request(&self) -> (r: Option<WslProbeRequest>)
        requires
            session_wf(self@),
        ensures
            match (r, next_request_of(self@)) {
                (Some(a), Some(b)) => a@ == b,
                (None, None) => true,
                _ => false,
            },
    {
        if self.is_done() {
            return None;
        }
        match &self.base {
            None => {
                let mut args: Vec<String> = Vec::new();
                let category = if self.base_events.len() == 0 {
                    args.push(String::from_str("--status"));
                    assert(texts(args@) =~= seq!["--status"@]);
                    WslProbeCommandCategory::Status
                } else if self.base_events.len() == 1 {
                    args.push(String::from_str("--version"));
                    assert(texts(args@) =~= seq!["--version"@]);
                    WslProbeCommandCategory::Version
                } else {
                    args.push(String::from_str("--list"));
                    args.push(String::from_str("--verbose"));
                    assert(texts(args@) =~= seq!["--list"@, "--verbose"@]);
                    WslProbeCommandCategory::ListVerbose
                };
                let r = WslProbeRequest { category, args };
                Some(r)
            },
            Some(base) => {
                proof {
                    assert(runnable_count(base@) > 0);
                }
                let name = Self::runnable_distro_name(base, self.current.len());
                let command = &self.commands[self.reports.len()];
                let args = cli_probe_args(name.as_str(), command.as_str());
                let r = WslProbeRequest { category: WslProbeCommandCategory::UserShellCliProbe, args };
                Some(r)
            },
        }
    }

    /// The category of the run asked for.
    pub open spec fn pending_category(s: SessionV) -> WslProbeCommandCategory {
        next_request_of(s)->Some_0.category
    }

    /// Take the outcome of the run asked for, `latency_ms` after it started.
    pub fn accept(&mut self, run: Result<WslRawOutput, WslRunError>, latency_ms: u64)
        requires
            session_wf(old(self)@),
            !session_done(old(self)@),
            run_summarizable(run_view(run)),
        ensures
            session_wf(final(self)@),
            final(self)@ == accept_spec(
                old(self)@,
                observe(Self::pending_category(old(self)@), run_view(run), latency_ms),
            ),
    {
        let category = match &self.base {
            None => {
                if self.base_events.len() == 0 {
                    WslProbeCommandCategory::Status
                } else if self.base_events.len() == 1 {
                    WslProbeCommandCategory::Version
                } else {
                    WslProbeCommandCategory::ListVerbose
                }
            },
            Some(_) => WslProbeCommandCategory::UserShellCliProbe,
        };
        assert(category == Self::pending_category(self@));
        let o = run_observed(category, run, latency_ms);
        let ghost ov = observed_view(o);
        let ghost s0 = self@;
        if self.base.is_none() {
            self.base_events.push(o);
            proof {
                assert(observed_seq(self.base_events@) =~= s0.base_events.push(ov));
            }
            if self.base_events.len() >= 1 {
                let first = status_step(&self.base_events[0]);
                match first {
                    Err(report) => {
                        self.base = Some(report);
                    },
                    Ok(lines) => {
                        if self.base_events.len() == 3 {
                            let v = version_step(&self.base_events[1]);
                            let l = list_step(&self.base_events[2]);
                            self.base = Some(assemble_base(lines, v, l));
                            proof {
                                let ev = observed_seq(self.base_events@);
                                assert(ev[1] == observed_view(self.base_events@[1]));
                                assert(ev[2] == observed_view(self.base_events@[2]));
                                let lst = list_stage(ev[2]);
                                assert(self.base->Some_0@ =~= base_report(
                                    status_stage(ev[0])->Ok_0,
                                    version_stage(ev[1]),
                                    lst,
                                ));
                            }
                        }
                    },
                }
            }
        } else {
            self.current.push(o);
            proof {
                assert(observed_seq(self.current@) =~= s0.current.push(ov));
            }
        }
        let ghost pre_settle = self@;
        proof {
            lemma_settle_wf(pre_settle);
        }
        self.settle_loop();
    }

    fn settle_loop(&mut self)
        requires
            session_unsettled_wf(old(self)@),
        ensures
            final(self)@ == settle(old(self)@),
        decreases old(self)@.commands.len() - old(self)@.reports.len(),
    {
        let ghost s = self@;
        proof {
            lemma_settle_wf(s);
        }
        let ready = match &self.base {
            Some(base) => {
                self.reports.len() < self.commands.len() && self.current.len() == Self::count_runnable(
                    base,
                )
            },
            None => false,
        };
        if ready {
            let base = self.base.as_ref().unwrap();
            let command = &self.commands[self.reports.len()];
            let report = probe_command_from_base(base, command.as_str(), self.current.as_slice());
            let ghost cur = s.current;
            self.reports.push(report);
            self.current = Vec::new();
            proof {
                self.chunks@ = self.chunks@.push(cur);
                assert(report_views(self.reports@) =~= s.reports.push(report@));
                assert(observed_seq(self.current@) =~= Seq::<ObservedV>::empty());
                let b = s.base->Some_0;
                let t = SessionV {
                    reports: s.reports.push(command_report(b, s.commands[s.reports.len() as int], s.current)),
                    chunks: s.chunks.push(s.current),
                    current: Seq::empty(),
                    ..s
                };
                assert(self@ =~= t);
                assert forall|i: int| 0 <= i < t.chunks.len() implies (#[trigger] t.chunks[i]).len()
                    == runnable_count(b) && t.reports[i] == command_report(b, t.commands[i], t.chunks[i]) by {
                    if i < s.chunks.len() {
                        assert(t.chunks[i] == s.chunks[i]);
                        assert(t.reports[i] == s.reports[i]);
                    }
                }
            }
            self.settle_loop();
        }
    }

    fn count_runnable(base: &WslProbeReport) -> (r: usize)
        ensures
            r == runnable_count(base@),
    {
        if !base.wsl_available {
            return 0;
        }
        let ghost dps = base@.distros;
        let mut n: usize = 0;
        let mut i: usize = 0;
        assert(dps.take(0) =~= Seq::<DistroProbeV>::empty());
        while i < base.distros.len()
            invariant
                dps == base@.distros,
                i <= base.distros.len(),
                n == unskipped_count(dps.take(i as int)),
                n <= i,
            decreases base.distros.len() - i,
        {
            assert(dps.take(i + 1).drop_last() =~= dps.take(i as int));
            assert(dps.take(i + 1).last() == dps[i as int]);
            if base.distros[i].skipped_reason.is_none() {
                n = n + 1;
            }
            i = i + 1;
        }
        assert(dps.take(base.distros.len() as int) =~= dps);
        n
    }

    /// The report of `WslService::probe`: the base report without a
    /// command, else the command's report.
    pub fn into_report(self) -> (r: WslProbeReport)
        requires
            session_wf(self@),
            session_done(self@),
            self@.single,
        ensures
            r@ == if self@.commands.len() == 0 {
                self@.base->Some_0
            } else {
                self@.reports[0]
            },
    {
        let WslProbeSession { commands, single, base_events, base, current, reports, chunks } = self;
        if commands.len() == 0 {
            base.unwrap()
        } else {
            let mut reports = reports;
            let r = reports.swap_remove(0);
            r
        }
    }

    /// The reports of `WslService::probe_commands`, in command order.
    pub fn into_reports(self) -> (r: Vec<(String, WslProbeReport)>)
        requires
            session_wf(self@),
            session_done(self@),
            !self@.single,
        ensures
            r@.len() == self@.commands.len(),
            forall|i: int|
                0 <= i < r@.len() ==> (#[trigger] r@[i]).0@ == self@.commands[i] && r@[i].1@
                    == self@.reports[i],
    {
        let ghost s = self@;
        let WslProbeSession { commands, single, base_events, base, current, reports, chunks } = self;
        let mut out: Vec<(String, WslProbeReport)> = Vec::new();
        if commands.len() == 0 {
            return out;
        }
        let mut i: usize = 0;
        while i < commands.len()
            invariant
                s.commands == texts(commands@),
                s.reports == report_views(reports@),
                reports@.len() == commands@.len(),
                i <= commands.len(),
                out@.len() == i,
                forall|j: int|
                    0 <= j < i ==> (#[trigger] out@[j]).0@ == s.commands[j] && out@[j].1@
                        == s.reports[j],
            decreases commands.len() - i,
        {
            let pair = (copy_text(&commands[i]), reports[i].duplicate());
            out.push(pair);
            i = i + 1;
        }
        out
    }
}

/// Front-to-back count of the probed entries.
pub open spec fn unskipped_front(dps: Seq<DistroProbeV>) -> nat
    decreases dps.len(),
{
    if dps.len() == 0 {
        0
    } else {
        (if dps[0].skipped_reason is None {
            1nat
        } else {
            0nat
        }) + unskipped_front(dps.drop_first())
    }
}

proof fn lemma_unskipped_front(dps: Seq<DistroProbeV>)
    ensures
        unskipped_front(dps) == unskipped_count(dps),
    decreases dps.len(),
{
    if dps.len() > 0 {
        lemma_unskipped_front(dps.drop_first());
        lemma_unskipped_front(dps.drop_last());
        if dps.len() > 1 {
            lemma_unskipped_front(dps.drop_first().drop_last());
            assert(dps.drop_first().drop_last() =~= dps.drop_last().drop_first());
        } else {
            assert(dps.drop_first().len() == 0);
            assert(dps.drop_last().len() == 0);
        }
    }
}


// ---------------------------------------------------------------------------
// Laws
// ---------------------------------------------------------------------------

pub open spec fn sum_lens(chunks: Seq<Seq<ObservedV>>) -> nat
    decreases chunks.len(),
{
    if chunks.len() == 0 {
        0
    } else {
        sum_lens(chunks.drop_last()) + chunks.last().len()
    }
}

/// Runs observed so far.
pub open spec fn run_count(s: SessionV) -> nat {
    s.base_events.len() + sum_lens(s.chunks) + s.current.len()
}

proof fn lemma_sum_lens_uniform(chunks: Seq<Seq<ObservedV>>, n: nat)
    requires
        forall|i: int| 0 <= i < chunks.len() ==> (#[trigger] chunks[i]).len() == n,
    ensures
        sum_lens(chunks) == chunks.len() * n,
    decreases chunks.len(),
{
    if chunks.len() > 0 {
        let d = chunks.drop_last();
        assert forall|i: int| 0 <= i < d.len() implies (#[trigger] d[i]).len() == n by {
            assert(d[i] == chunks[i]);
        }
        lemma_sum_lens_uniform(d, n);
        assert(chunks.last() == chunks[chunks.len() - 1]);
        assert(d.len() * n + n == (d.len() + 1) * n) by (nonlinear_arith);
    }
}

proof fn lemma_settle_runs(s: SessionV)
    ensures
        run_count(settle(s)) == run_count(s),
    decreases s.commands.len() - s.reports.len(),
{
    if s.base is Some && s.reports.len() < s.commands.len() && s.current.len() == runnable_count(
        s.base->Some_0,
    ) {
        let t = SessionV {
            reports: s.reports.push(
                command_report(s.base->Some_0, s.commands[s.reports.len() as int], s.current),
            ),
            chunks: s.chunks.push(s.current),
            current: Seq::empty(),
            ..s
        };
        assert(t.chunks.drop_last() =~= s.chunks);
        lemma_settle_runs(t);
    }
}

proof fn lemma_unskipped_bound(dps: Seq<DistroProbeV>)
    ensures
        unskipped_count(dps) <= dps.len(),
    decreases dps.len(),
{
    if dps.len() > 0 {
        lemma_unskipped_bound(dps.drop_last());
    }
}

/// Each accepted outcome is one more run, and a probe makes at most three
/// base runs plus one CLI run per command and probed distro: the session
/// always comes to an end.
pub proof fn law_probe_runs_are_bounded(s: SessionV, o: ObservedV)
    requires
        session_wf(s),
        !session_done(s),
    ensures
        run_count(accept_spec(s, o)) == run_count(s) + 1,
        s.base is Some ==> run_count(s) < 3 + s.commands.len() * s.base->Some_0.distros.len(),
        s.base is None ==> run_count(s) < 3,
{
    let t = if s.base is None {
        let ev = s.base_events.push(o);
        SessionV { base_events: ev, base: base_of(ev), ..s }
    } else {
        SessionV { current: s.current.push(o), ..s }
    };
    lemma_settle_runs(t);
    if s.base is Some {
        let b = s.base->Some_0;
        let n = runnable_count(b);
        lemma_sum_lens_uniform(s.chunks, n);
        lemma_unskipped_bound(b.distros);
        assert(n <= b.distros.len());
        let c = s.commands.len();
        let k = s.chunks.len();
        assert(k < c);
        assert(s.current.len() < n);
        assert(k * n + s.current.len() < c * n) by (nonlinear_arith)
            requires
                k < c,
                s.current.len() < n,
        {
            assert(k * n <= (c - 1) * n);
        }
        assert(c * n <= c * b.distros.len()) by (nonlinear_arith)
            requires
                n <= b.distros.len(),
        {
        }
    }
}

/// Probing several commands: without a command nothing runs; otherwise the
/// base probe (`--status`, `--version`, `--list --verbose`, at most one
/// run each, `--status` first) is made once, and when the session is done
/// each command has, in order, the report of that command over that one
/// base and the runs made for it.
pub proof fn law_commands_share_one_base(s: SessionV)
    requires
        session_wf(s),
        session_done(s),
        !s.single,
    ensures
        s.commands.len() == 0 ==> run_count(s) == 0,
        s.commands.len() > 0 ==> {
            &&& s.base == Some(base_of(s.base_events)->Some_0)
            &&& 1 <= s.base_events.len() <= 3
            &&& s.reports.len() == s.commands.len()
            &&& forall|i: int|
                0 <= i < s.commands.len() ==> #[trigger] s.reports[i] == command_report(
                    s.base->Some_0,
                    s.commands[i],
                    s.chunks[i],
                )
        },
{
    if s.commands.len() > 0 {
        assert(s.base is Some);
        if s.base_events.len() == 0 {
            assert(base_of(s.base_events) is None);
        }
    }
}

/// The session of `probe_commands(cmds)` before any run.
pub open spec fn commands_session(cmds: Seq<Seq<char>>) -> SessionV {
    SessionV {
        commands: cmds,
        single: false,
        base_events: Seq::empty(),
        base: None,
        chunks: Seq::empty(),
        current: Seq::empty(),
        reports: Seq::empty(),
    }
}

/// The session after the run it asks for came back as `out` (the runner's
/// outcome and the run's latency).
pub open spec fn step(s: SessionV, out: (Result<RawV, RunErrorV>, u64)) -> SessionV {
    accept_spec(s, observe(next_request_of(s)->Some_0.category, out.0, out.1))
}

/// The session fed with `outs`, one outcome per run it asks for, until it
/// is done or the outcomes run out.
pub open spec fn drive(s: SessionV, outs: Seq<(Result<RawV, RunErrorV>, u64)>) -> SessionV
    decreases outs.len(),
{
    if session_done(s) || outs.len() == 0 {
        s
    } else {
        drive(step(s, outs[0]), outs.drop_first())
    }
}

/// The runs the session asks for while it is fed with `outs`, in order.
pub open spec fn requests(s: SessionV, outs: Seq<(Result<RawV, RunErrorV>, u64)>) -> Seq<RequestV>
    decreases outs.len(),
{
    if session_done(s) || outs.len() == 0 {
        Seq::empty()
    } else {
        seq![next_request_of(s)->Some_0] + requests(step(s, outs[0]), outs.drop_first())
    }
}

proof fn lemma_accept_wf(s: SessionV, o: ObservedV)
    requires
        session_wf(s),
        !session_done(s),
    ensures
        session_wf(accept_spec(s, o)),
        accept_spec(s, o).commands == s.commands,
        accept_spec(s, o).single == s.single,
        accept_spec(s, o).base_events.len() >= 1,
        accept_spec(s, o).base_events.len() >= s.base_events.len(),
{
    let pre = if s.base is None {
        let ev = s.base_events.push(o);
        SessionV { base_events: ev, base: base_of(ev), ..s }
    } else {
        SessionV { current: s.current.push(o), ..s }
    };
    if s.base is None {
        assert(s.base_events.len() <= 2);
        if s.base_events.len() >= 1 {
            assert(pre.base_events[0] == s.base_events[0]);
        }
        if pre.base is Some {
            assert(pre.chunks.len() == 0 && pre.reports.len() == 0);
        }
    } else {
        assert(s.base_events.len() >= 1);
    }
    assert(session_unsettled_wf(pre));
    lemma_settle_wf(pre);
}

proof fn lemma_drive(s: SessionV, outs: Seq<(Result<RawV, RunErrorV>, u64)>)
    requires
        session_wf(s),
    ensures
        session_wf(drive(s, outs)),
        drive(s, outs).commands == s.commands,
        drive(s, outs).single == s.single,
        s.base_events.len() >= 1 ==> forall|k: int|
            0 <= k < requests(s, outs).len() ==> (#[trigger] requests(s, outs)[k]).category
                != WslProbeCommandCategory::Status,
    decreases outs.len(),
{
    if !(session_done(s) || outs.len() == 0) {
        let o = observe(next_request_of(s)->Some_0.category, outs[0].0, outs[0].1);
        lemma_accept_wf(s, o);
        let t = step(s, outs[0]);
        lemma_drive(t, outs.drop_first());
        let r = requests(s, outs);
        let rest = requests(t, outs.drop_first());
        assert(r == seq![next_request_of(s)->Some_0] + rest);
        if s.base_events.len() >= 1 {
            assert forall|k: int| 0 <= k < r.len() implies (#[trigger] r[k]).category
                != WslProbeCommandCategory::Status by {
                if k > 0 {
                    assert(r[k] == rest[k - 1]);
                }
            }
        }
    }
}

/// `probe_commands(cmds)` fed, run after run, with the runner's outcomes
/// `outs` until it is done: without a command it asks for no run and
/// reports nothing; otherwise its first run is `wsl.exe --status` and no
/// later run is, so the base probe is made once, and every command gets, in
/// input order, its report over that one base from the runs made for it.
/// The timeout of the runs does not enter: the runs asked for and the
/// reports depend on the outcomes alone.
pub proof fn law_probe_commands(cmds: Seq<Seq<char>>, outs: Seq<(Result<RawV, RunErrorV>, u64)>)
    requires
        session_done(drive(commands_session(cmds), outs)),
    ensures
        cmds.len() == 0 ==> requests(commands_session(cmds), outs).len() == 0 && drive(
            commands_session(cmds),
            outs,
        ).reports.len() == 0,
        cmds.len() > 0 ==> {
            let rq = requests(commands_session(cmds), outs);
            let f = drive(commands_session(cmds), outs);
            &&& rq.len() >= 1
            &&& rq[0] == (RequestV {
                category: WslProbeCommandCategory::Status,
                args: seq!["--status"@],
            })
            &&& forall|k: int| 1 <= k < rq.len() ==> (#[trigger] rq[k]).category
                != WslProbeCommandCategory::Status
            &&& f.base is Some
            &&& f.reports.len() == cmds.len()
            &&& forall|i: int|
                0 <= i < cmds.len() ==> #[trigger] f.reports[i] == command_report(
                    f.base->Some_0,
                    cmds[i],
                    f.chunks[i],
                )
        },
{
    let s0 = commands_session(cmds);
    assert(session_wf(s0));
    lemma_drive(s0, outs);
    let f = drive(s0, outs);
    law_commands_share_one_base(f);
    if cmds.len() > 0 {
        assert(!session_done(s0));
        if outs.len() == 0 {
            assert(f == s0);
        }
        let o = observe(WslProbeCommandCategory::Status, outs[0].0, outs[0].1);
        lemma_accept_wf(s0, o);
        let t = step(s0, outs[0]);
        lemma_drive(t, outs.drop_first());
        let rq = requests(s0, outs);
        let rest = requests(t, outs.drop_first());
        assert(rq == seq![next_request_of(s0)->Some_0] + rest);
        assert forall|k: int| 1 <= k < rq.len() implies (#[trigger] rq[k]).category
            != WslProbeCommandCategory::Status by {
            assert(rq[k] == rest[k - 1]);
        }
    }
}

/// When `wsl.exe --status` does not succeed, the probe stops there: WSL is
/// reported unavailable with that single issue, and every command's report
/// is that same report.
pub proof fn law_failed_status_ends_probe(s: SessionV)
    requires
        session_wf(s),
        s.base_events.len() >= 1,
        status_stage(s.base_events[0]) is Err,
    ensures
        s.base_events.len() == 1,
        s.base == Some(status_stage(s.base_events[0])->Err_0),
        !s.base->Some_0.wsl_available,
        s.base->Some_0.issues.len() == 1,
        session_done(s),
        forall|i: int| 0 <= i < s.reports.len() ==> #[trigger] s.reports[i] == s.base->Some_0,
{
    let b = s.base->Some_0;
    assert forall|i: int| 0 <= i < s.reports.len() implies #[trigger] s.reports[i] == b by {
        assert(s.chunks[i].len() == runnable_count(b));
    }
}

/// What a command's report keeps of the base: every distro entry in
/// order with its name and skip reason, the skipped entries unchanged, and
/// the base issues first.
pub proof fn law_command_report_keeps_base(base: ReportV, command: Seq<char>, outs: Seq<ObservedV>)
    requires
        outs.len() >= runnable_count(base),
    ensures
        command_report(base, command, outs).wsl_available == base.wsl_available,
        command_report(base, command, outs).status == base.status,
        command_report(base, command, outs).version == base.version,
        command_report(base, command, outs).distros.len() == base.distros.len(),
        forall|i: int|
            0 <= i < base.distros.len() ==> {
                let e = #[trigger] command_report(base, command, outs).distros[i];
                &&& e.distro == base.distros[i].distro
                &&& e.skipped_reason == base.distros[i].skipped_reason
                &&& base.distros[i].skipped_reason is Some ==> e == base.distros[i]
            },
        command_report(base, command, outs).issues.take(base.issues.len() as int) == base.issues,
{
    if base.wsl_available {
        lemma_fold_shape(base.distros, command, outs);
        let f = command_fold(base.distros, command, outs);
        assert((base.issues + f.1).take(base.issues.len() as int) =~= base.issues);
    } else {
        assert(base.issues.take(base.issues.len() as int) =~= base.issues);
    }
}

proof fn lemma_fold_shape(dps: Seq<DistroProbeV>, command: Seq<char>, outs: Seq<ObservedV>)
    ensures
        command_fold(dps, command, outs).0.len() == dps.len(),
        forall|i: int|
            0 <= i < dps.len() ==> {
                let e = #[trigger] command_fold(dps, command, outs).0[i];
                &&& e.distro == dps[i].distro
                &&& e.skipped_reason == dps[i].skipped_reason
                &&& dps[i].skipped_reason is Some ==> e == dps[i]
            },
    decreases dps.len(),
{
    if dps.len() > 0 {
        let d = dps.drop_last();
        lemma_fold_shape(d, command, outs);
        let f = command_fold(dps, command, outs);
        let g = command_fold(d, command, outs);
        assert forall|i: int| 0 <= i < dps.len() implies {
            let e = #[trigger] command_fold(dps, command, outs).0[i];
            &&& e.distro == dps[i].distro
            &&& e.skipped_reason == dps[i].skipped_reason
            &&& dps[i].skipped_reason is Some ==> e == dps[i]
        } by {
            if i < d.len() {
                assert(f.0[i] == g.0[i]);
                assert(d[i] == dps[i]);
            }
        }
    }
}

/// A command is reported available inside a distro only with the path that
/// the probe printed.
pub proof fn law_available_cli_has_path(command: Seq<char>, o: ObservedV)
    ensures
        (cli_stage(command, o) matches Ok(c) && c.available) ==> cli_stage(command, o)->Ok_0.found_path is Some,
{
}

/// Only distros whose state is `Running` (any case) are probed; the others
/// are listed with a skip reason.
pub proof fn law_only_running_distros_are_probed(d: DistroV)
    ensures
        distro_entry(d).skipped_reason is None <==> eq_ignore_case(d.state, "running"@),
        distro_entry(d).cli_probe is None,
{
}

/// The `k`-th CLI run for a command goes to the distro whose entry takes the
/// `k`-th outcome.
pub proof fn law_requests_match_entries(dps: Seq<DistroProbeV>, i: int)
    requires
        0 <= i < dps.len(),
        dps[i].skipped_reason is None,
    ensures
        nth_runnable(dps, unskipped_count(dps.take(i))) == dps[i].distro,
    decreases i,
{
    lemma_unskipped_front(dps.take(i));
    if i == 0 {
        assert(dps.take(0) =~= Seq::<DistroProbeV>::empty());
    } else {
        let t = dps.drop_first();
        assert(t[i - 1] == dps[i]);
        law_requests_match_entries(t, i - 1);
        lemma_unskipped_front(t.take(i - 1));
        assert(dps.take(i).drop_first() =~= t.take(i - 1));
        assert(dps.take(i)[0] == dps[0]);
    }
}


// ---------------------------------------------------------------------------
// The service
// ---------------------------------------------------------------------------

/// What `Duration::from_secs` makes of a number of seconds.
pub uninterp spec fn seconds(secs: u64) -> core::time::Duration;

/// `Duration::from_secs(secs)`.
#[verifier::external_body]
fn duration_from_secs(secs: u64) -> (d: core::time::Duration)
    ensures
        d == seconds(secs),
{
    core::time::Duration::from_secs(secs)
}

/// `Duration` is `Copy`: its `clone` gives the same value.
pub assume_specification[ <core::time::Duration as Clone>::clone ](d: &core::time::Duration) -> (r: core::time::Duration)
    ensures
        r == *d,
;

/// Runs `wsl.exe` as a child process of the host.
#[derive(Debug, Clone, Default)]
pub struct SystemWslCommandRunner;

/// Probes WSL through a runner of `wsl.exe`, each run bounded by a timeout
/// (eight seconds unless set otherwise).
#[derive(Debug, Clone)]
pub struct WslService<R = SystemWslCommandRunner> {
    runner: R,
    timeout: core::time::Duration,
}

impl<R> WslService<R> {
    pub closed spec fn runner_spec(&self) -> R {
        self.runner
    }

    pub closed spec fn timeout_spec(&self) -> core::time::Duration {
        self.timeout
    }

    pub fn with_runner(runner: R) -> (r: Self)
        ensures
            r.runner_spec() == runner,
            r.timeout_spec() == seconds(8),
    {
        WslService { runner, timeout: duration_from_secs(8) }
    }

    pub fn with_timeout(self, timeout: core::time::Duration) -> (r: Self)
        ensures
            r.runner_spec() == self.runner_spec(),
            r.timeout_spec() == timeout,
    {
        let mut s = self;
        s.timeout = timeout;
        s
    }

    pub fn runner(&self) -> (r: &R)
        ensures
            *r == self.runner_spec(),
    {
        &self.runner
    }

    pub fn timeout(&self) -> (r: core::time::Duration)
        ensures
            r == self.timeout_spec(),
    {
        self.timeout
    }
}

impl WslService<SystemWslCommandRunner> {
    pub fn new() -> (r: Self)
        ensures
            r.timeout_spec() == seconds(8),
    {
        Self::with_runner(SystemWslCommandRunner)
    }
}

impl Default for WslService<SystemWslCommandRunner> {
    fn default() -> (r: Self)
        ensures
            r.timeout_spec() == seconds(8),
    {
        Self::new()
    }
}

} // verus!
