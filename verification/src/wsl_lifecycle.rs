//! Lifecycle of an agent launched through `wsl.exe`: the launcher reports
//! the agent's pid on stderr, and stopping the agent signals its process
//! group inside the distro.
use vstd::prelude::*;
use crate::text::{
    append_str, chars_of, eq_chars, eq_ignore_case, eq_ignore_case_chars, parse_unsigned,
    parse_unsigned_chars, push_decimal, decimal, slice_to_vec, starts_with, starts_with_chars,
    string_from_chars, trim, trim_chars,
};
use crate::wsl::{opt_text, texts};

verus! {

pub const WSL_AGENT_PID_MARKER: &'static str = "__AIONUI_WSL_AGENT_PID=";

/// Signals the agent's process group, or the agent alone when that fails.
pub const WSL_CLEANUP_SCRIPT: &'static str =
    r#"pid="$1"; signal="$2"; kill "$signal" "-$pid" 2>/dev/null || kill "$signal" "$pid" 2>/dev/null || true"#;

/// The pid that a stderr line reports: `__AIONUI_WSL_AGENT_PID=<pid>` after
/// trimming, with a pid above 1.
pub open spec fn agent_pid_marker(line: Seq<char>) -> Option<u32> {
    let t = trim(line);
    if !starts_with(t, WSL_AGENT_PID_MARKER@) {
        None
    } else {
        match parse_unsigned(t.skip(WSL_AGENT_PID_MARKER@.len() as int), 0xffff_ffff) {
            Some(v) => if v > 1 {
                Some(v as u32)
            } else {
                None
            },
            None => None,
        }
    }
}

pub fn parse_wsl_agent_pid_marker(line: &str) -> (r: Option<u32>)
    ensures
        r == agent_pid_marker(line@),
{
    let all = chars_of(line);
    let t = trim_chars(all.as_slice());
    let marker = chars_of(WSL_AGENT_PID_MARKER);
    if !starts_with_chars(t.as_slice(), marker.as_slice()) {
        return None;
    }
    let value = slice_to_vec(t.as_slice(), marker.len(), t.len());
    assert(value@ =~= t@.skip(marker@.len() as int));
    match parse_unsigned_chars(value.as_slice(), 0xffff_ffff) {
        Some(v) => {
            if v > 1 {
                Some(v as u32)
            } else {
                None
            }
        },
        None => None,
    }
}

/// `-d <distro>` or `--distribution <distro>`: the value after the first
/// such flag, unless it is blank.
pub open spec fn args_distro(args: Seq<Seq<char>>, from: int) -> Option<Seq<char>>
    decreases args.len() - from,
{
    if from < 0 || from + 1 >= args.len() {
        None
    } else if args[from] == "-d"@ || args[from] == "--distribution"@ {
        if trim(args[from + 1]).len() > 0 {
            Some(args[from + 1])
        } else {
            None
        }
    } else {
        args_distro(args, from + 1)
    }
}

pub fn distro_from_args(args: &[String]) -> (r: Option<String>)
    ensures
        opt_text(r) == args_distro(texts(args@), 0),
{
    let ghost a = texts(args@);
    let short = chars_of("-d");
    let long = chars_of("--distribution");
    let mut i: usize = 0;
    while i < args.len() && i + 1 < args.len()
        invariant
            a == texts(args@),
            short@ == "-d"@,
            long@ == "--distribution"@,
            i <= args.len(),
            args_distro(a, 0) == args_distro(a, i as int),
        decreases args.len() - i,
    {
        let flag = chars_of(args[i].as_str());
        if eq_chars(flag.as_slice(), short.as_slice()) || eq_chars(flag.as_slice(), long.as_slice()) {
            let value = chars_of(args[i + 1].as_str());
            let t = trim_chars(value.as_slice());
            if t.len() > 0 {
                return Some(string_from_chars(value.as_slice()));
            }
            return None;
        }
        i = i + 1;
    }
    None
}

/// The launcher is `wsl.exe` (any case), judged by its file name.
pub open spec fn wsl_exe_name(file_name: Option<Seq<char>>) -> bool {
    match file_name {
        Some(n) => eq_ignore_case(n, "wsl.exe"@),
        None => false,
    }
}

pub fn is_wsl_exe(file_name: Option<&str>) -> (r: bool)
    ensures
        r == wsl_exe_name(
            match file_name {
                Some(n) => Some(n@),
                None => None,
            },
        ),
{
    match file_name {
        Some(n) => {
            let a = chars_of(n);
            let b = chars_of("wsl.exe");
            eq_ignore_case_chars(a.as_slice(), b.as_slice())
        },
        None => false,
    }
}

/// A command line: a program and its arguments.
pub struct WslCleanupCommand {
    pub program: String,
    pub args: Vec<String>,
}

pub open spec fn cleanup_args(distro: Seq<char>, pid: u32, signal: Seq<char>) -> Seq<Seq<char>> {
    seq![
        "-d"@,
        distro,
        "--exec"@,
        "sh"@,
        "-lc"@,
        WSL_CLEANUP_SCRIPT@,
        "aionui-wsl-cleanup"@,
        decimal(pid as nat),
        "-"@ + signal,
    ]
}

/// The `wsl.exe` command that sends `signal` to the process group of `pid`
/// inside `distro`.
pub fn wsl_cleanup_command(command: &str, distro: &str, pid: u32, signal: &str) -> (r: WslCleanupCommand)
    ensures
        r.program@ == command@,
        texts(r.args@) == cleanup_args(distro@, pid, signal@),
{
    let mut args: Vec<String> = Vec::new();
    args.push(String::from_str("-d"));
    args.push(String::from_str(distro));
    args.push(String::from_str("--exec"));
    args.push(String::from_str("sh"));
    args.push(String::from_str("-lc"));
    args.push(String::from_str(WSL_CLEANUP_SCRIPT));
    args.push(String::from_str("aionui-wsl-cleanup"));
    let mut p: Vec<char> = Vec::new();
    push_decimal(&mut p, pid as u64);
    assert(p@ =~= decimal(pid as nat));
    args.push(string_from_chars(p.as_slice()));
    let mut sig: Vec<char> = Vec::new();
    append_str(&mut sig, "-");
    append_str(&mut sig, signal);
    args.push(string_from_chars(sig.as_slice()));
    assert(texts(args@) =~= cleanup_args(distro@, pid, signal@));
    WslCleanupCommand { program: String::from_str(command), args }
}

pub open spec fn command_preview(program: Seq<char>, args: Seq<Seq<char>>) -> Seq<char>
    decreases args.len(),
{
    if args.len() == 0 {
        program
    } else {
        command_preview(program, args.drop_last()) + " "@ + args.last()
    }
}

impl WslCleanupCommand {
    /// The command line as one line of text: the program, then each argument
    /// after a space.
    pub fn to_string(&self) -> (r: String)
        ensures
            r@ == command_preview(self.program@, texts(self.args@)),
    {
        let mut out: Vec<char> = chars_of(self.program.as_str());
        let ghost a = texts(self.args@);
        let mut i: usize = 0;
        assert(a.take(0) =~= Seq::<Seq<char>>::empty());
        while i < self.args.len()
            invariant
                a == texts(self.args@),
                i <= self.args.len(),
                out@ == command_preview(self.program@, a.take(i as int)),
            decreases self.args.len() - i,
        {
            assert(a.take(i + 1).drop_last() =~= a.take(i as int));
            assert(a.take(i + 1).last() == self.args@[i as int]@);
            append_str(&mut out, " ");
            append_str(&mut out, self.args[i].as_str());
            i = i + 1;
        }
        assert(a.take(self.args.len() as int) =~= a);
        string_from_chars(out.as_slice())
    }
}

/// What is known of an agent launched through `wsl.exe`.
pub struct WslLifecycle {
    command: String,
    distro: String,
    agent_pid: Option<u32>,
}

impl WslLifecycle {
    pub closed spec fn command_spec(&self) -> Seq<char> {
        self.command@
    }

    pub closed spec fn distro_spec(&self) -> Seq<char> {
        self.distro@
    }

    pub closed spec fn pid_spec(&self) -> Option<u32> {
        self.agent_pid
    }

    /// A lifecycle for a launch through `wsl.exe` with a distro argument;
    /// `None` for any other launch. `file_name` is the file name of
    /// `command`.
    pub fn from_command_spec(command: &str, file_name: Option<&str>, args: &[String]) -> (r: Option<Self>)
        ensures
            r is Some <==> wsl_exe_name(
                match file_name {
                    Some(n) => Some(n@),
                    None => None,
                },
            ) && args_distro(texts(args@), 0) is Some,
            r matches Some(l) ==> l.command_spec() == command@ && l.distro_spec() == args_distro(
                texts(args@),
                0,
            )->Some_0 && l.pid_spec() is None,
    {
        if !is_wsl_exe(file_name) {
            return None;
        }
        match distro_from_args(args) {
            Some(distro) => Some(WslLifecycle { command: String::from_str(command), distro, agent_pid: None }),
            None => None,
        }
    }

    /// The `wsl.exe` path the agent was launched with.
    pub fn command(&self) -> (r: &str)
        ensures
            r@ == self.command_spec(),
    {
        self.command.as_str()
    }

    pub fn distro(&self) -> (r: &str)
        ensures
            r@ == self.distro_spec(),
    {
        self.distro.as_str()
    }

    pub fn agent_pid(&self) -> (r: Option<u32>)
        ensures
            r == self.pid_spec(),
    {
        self.agent_pid
    }

    /// Record the pid that a stderr line reports; `false` for any other line.
    pub fn record_stderr_line(&mut self, line: &str) -> (r: bool)
        ensures
            r == (agent_pid_marker(line@) is Some),
            final(self).pid_spec() == if r {
                agent_pid_marker(line@)
            } else {
                old(self).pid_spec()
            },
            final(self).command_spec() == old(self).command_spec(),
            final(self).distro_spec() == old(self).distro_spec(),
    {
        match parse_wsl_agent_pid_marker(line) {
            Some(pid) => {
                self.agent_pid = Some(pid);
                true
            },
            None => false,
        }
    }

    /// The cleanup command for `signal`, or `None` (nothing to signal) when
    /// no pid was reported.
    pub fn signal_command(&self, signal: &str) -> (r: Option<WslCleanupCommand>)
        ensures
            r is Some <==> self.pid_spec() is Some,
            r matches Some(c) ==> c.program@ == self.command_spec() && texts(c.args@)
                == cleanup_args(self.distro_spec(), self.pid_spec()->Some_0, signal@),
    {
        match self.agent_pid {
            Some(pid) => Some(wsl_cleanup_command(self.command.as_str(), self.distro.as_str(), pid, signal)),
            None => None,
        }
    }

    /// The command that terminates the agent tree (`TERM`).
    pub fn terminate_command(&self) -> (r: Option<WslCleanupCommand>)
        ensures
            r is Some <==> self.pid_spec() is Some,
            r matches Some(c) ==> c.program@ == self.command_spec() && texts(c.args@)
                == cleanup_args(self.distro_spec(), self.pid_spec()->Some_0, "TERM"@),
    {
        self.signal_command("TERM")
    }

    /// The command that kills the agent tree (`KILL`).
    pub fn kill_command(&self) -> (r: Option<WslCleanupCommand>)
        ensures
            r is Some <==> self.pid_spec() is Some,
            r matches Some(c) ==> c.program@ == self.command_spec() && texts(c.args@)
                == cleanup_args(self.distro_spec(), self.pid_spec()->Some_0, "KILL"@),
    {
        self.signal_command("KILL")
    }
}

} // verus!
