//! WSL probe data, and the parsers and decoders that turn what `wsl.exe`
//! prints into it.
use vstd::prelude::*;
use crate::text::{
    append_chars, append_str, chars_of, clean_lines, clean_lines_of, contains, decimal_i32,
    eq_chars, find, find_chars, join, occurs_at,
    join_prefix, lemma_views_push, lower_chars, lower_seq, parse_i32, parse_i32_chars, parse_unsigned,
    parse_unsigned_chars, push_decimal_i32, slice_to_vec, starts_with, starts_with_chars,
    strip_stars, strip_stars_chars, string_from_chars, trim, trim_chars, views, words, words_of,
};

verus! {

pub const CLI_PROBE_SENTINEL: &'static str = "__AIONUI_WSL_PROBE_EXIT__:";

pub const USER_SHELL_PROBE_MODE: &'static str = "user-shell";

#[derive(Debug, Clone, Copy, PartialEq, Eq, Structural)]
pub enum WslProbeCommandCategory {
    Status,
    Version,
    ListVerbose,
    CleanShellCliProbe,
    UserShellCliProbe,
}

#[derive(Debug, Clone, Copy, PartialEq, Eq, Structural)]
pub enum WslProbeErrorCode {
    WslCommandUnavailable,
    CommandFailed,
    Timeout,
    ParseFailed,
    NoDistro,
    StdoutPolluted,
}

#[derive(Debug, Clone, PartialEq, Eq)]
pub struct WslProbeIssue {
    pub category: WslProbeCommandCategory,
    pub code: WslProbeErrorCode,
    pub message: String,
    pub stderr_summary: Option<String>,
}

#[derive(Debug, Clone, PartialEq, Eq)]
pub struct WslCommandObservation {
    pub category: WslProbeCommandCategory,
    pub latency_ms: u64,
    pub status_code: Option<i32>,
    pub stderr_summary: Option<String>,
}

#[derive(Debug, Clone, PartialEq, Eq)]
pub struct WslStatus {
    pub lines: Vec<String>,
}

#[derive(Debug, Clone, PartialEq, Eq)]
pub struct WslVersion {
    pub lines: Vec<String>,
}

#[derive(Debug, Clone, PartialEq, Eq)]
pub struct WslDistro {
    pub name: String,
    pub state: String,
    pub version: Option<u8>,
}

#[derive(Debug, Clone, PartialEq, Eq)]
pub struct WslCliProbeResult {
    pub command: String,
    pub found_path: Option<String>,
    pub available: bool,
    pub probe_mode: String,
    pub observation: WslCommandObservation,
}

#[derive(Debug, Clone, PartialEq, Eq)]
pub struct WslDistroProbe {
    pub distro: WslDistro,
    pub cli_probe: Option<WslCliProbeResult>,
    pub skipped_reason: Option<String>,
}

#[derive(Debug, Clone, PartialEq, Eq)]
pub struct WslProbeReport {
    pub wsl_available: bool,
    pub status: Option<WslStatus>,
    pub version: Option<WslVersion>,
    pub distros: Vec<WslDistroProbe>,
    pub issues: Vec<WslProbeIssue>,
}

#[derive(Debug, Clone, PartialEq, Eq)]
pub struct WslRawOutput {
    pub status_code: Option<i32>,
    pub stdout: String,
    pub stderr: String,
}

#[derive(Debug, Clone, PartialEq, Eq)]
pub enum WslRunError {
    Spawn(String),
    Timeout,
}

// ---------------------------------------------------------------------------
// Views: the same data with texts as character sequences
// ---------------------------------------------------------------------------

pub open spec fn opt_text(o: Option<String>) -> Option<Seq<char>> {
    match o {
        Some(s) => Some(s@),
        None => None,
    }
}

pub open spec fn texts(v: Seq<String>) -> Seq<Seq<char>> {
    v.map_values(|s: String| s@)
}

pub struct IssueV {
    pub category: WslProbeCommandCategory,
    pub code: WslProbeErrorCode,
    pub message: Seq<char>,
    pub stderr_summary: Option<Seq<char>>,
}

pub struct ObservationV {
    pub category: WslProbeCommandCategory,
    pub latency_ms: u64,
    pub status_code: Option<i32>,
    pub stderr_summary: Option<Seq<char>>,
}

pub struct DistroV {
    pub name: Seq<char>,
    pub state: Seq<char>,
    pub version: Option<u8>,
}

pub struct CliProbeV {
    pub command: Seq<char>,
    pub found_path: Option<Seq<char>>,
    pub available: bool,
    pub probe_mode: Seq<char>,
    pub observation: ObservationV,
}

pub struct DistroProbeV {
    pub distro: DistroV,
    pub cli_probe: Option<CliProbeV>,
    pub skipped_reason: Option<Seq<char>>,
}

pub struct ReportV {
    pub wsl_available: bool,
    pub status: Option<Seq<Seq<char>>>,
    pub version: Option<Seq<Seq<char>>>,
    pub distros: Seq<DistroProbeV>,
    pub issues: Seq<IssueV>,
}

pub struct RawV {
    pub status_code: Option<i32>,
    pub stdout: Seq<char>,
    pub stderr: Seq<char>,
}

impl View for WslProbeIssue {
    type V = IssueV;

    open spec fn view(&self) -> IssueV {
        IssueV {
            category: self.category,
            code: self.code,
            message: self.message@,
            stderr_summary: opt_text(self.stderr_summary),
        }
    }
}

impl View for WslCommandObservation {
    type V = ObservationV;

    open spec fn view(&self) -> ObservationV {
        ObservationV {
            category: self.category,
            latency_ms: self.latency_ms,
            status_code: self.status_code,
            stderr_summary: opt_text(self.stderr_summary),
        }
    }
}

impl View for WslDistro {
    type V = DistroV;

    open spec fn view(&self) -> DistroV {
        DistroV { name: self.name@, state: self.state@, version: self.version }
    }
}

impl View for WslCliProbeResult {
    type V = CliProbeV;

    open spec fn view(&self) -> CliProbeV {
        CliProbeV {
            command: self.command@,
            found_path: opt_text(self.found_path),
            available: self.available,
            probe_mode: self.probe_mode@,
            observation: self.observation@,
        }
    }
}

pub open spec fn opt_cli(o: Option<WslCliProbeResult>) -> Option<CliProbeV> {
    match o {
        Some(c) => Some(c@),
        None => None,
    }
}

impl View for WslDistroProbe {
    type V = DistroProbeV;

    open spec fn view(&self) -> DistroProbeV {
        DistroProbeV {
            distro: self.distro@,
            cli_probe: opt_cli(self.cli_probe),
            skipped_reason: opt_text(self.skipped_reason),
        }
    }
}

pub open spec fn opt_lines_status(o: Option<WslStatus>) -> Option<Seq<Seq<char>>> {
    match o {
        Some(s) => Some(texts(s.lines@)),
        None => None,
    }
}

pub open spec fn opt_lines_version(o: Option<WslVersion>) -> Option<Seq<Seq<char>>> {
    match o {
        Some(s) => Some(texts(s.lines@)),
        None => None,
    }
}

pub open spec fn issue_views(v: Seq<WslProbeIssue>) -> Seq<IssueV> {
    v.map_values(|i: WslProbeIssue| i@)
}

pub open spec fn distro_views(v: Seq<WslDistro>) -> Seq<DistroV> {
    v.map_values(|d: WslDistro| d@)
}

pub open spec fn probe_views(v: Seq<WslDistroProbe>) -> Seq<DistroProbeV> {
    v.map_values(|d: WslDistroProbe| d@)
}

impl View for WslProbeReport {
    type V = ReportV;

    open spec fn view(&self) -> ReportV {
        ReportV {
            wsl_available: self.wsl_available,
            status: opt_lines_status(self.status),
            version: opt_lines_version(self.version),
            distros: probe_views(self.distros@),
            issues: issue_views(self.issues@),
        }
    }
}

impl View for WslRawOutput {
    type V = RawV;

    open spec fn view(&self) -> RawV {
        RawV { status_code: self.status_code, stdout: self.stdout@, stderr: self.stderr@ }
    }
}

// ---------------------------------------------------------------------------
// Copies that keep the view
// ---------------------------------------------------------------------------

pub fn copy_text(s: &String) -> (r: String)
    ensures
        r@ == s@,
{
    s.clone()
}

pub fn copy_opt_text(o: &Option<String>) -> (r: Option<String>)
    ensures
        opt_text(r) == opt_text(*o),
{
    match o {
        Some(s) => Some(copy_text(s)),
        None => None,
    }
}

pub fn copy_texts(v: &Vec<String>) -> (r: Vec<String>)
    ensures
        texts(r@) == texts(v@),
{
    let mut r: Vec<String> = Vec::new();
    let mut i: usize = 0;
    while i < v.len()
        invariant
            i <= v.len(),
            texts(r@) == texts(v@.take(i as int)),
        decreases v.len() - i,
    {
        let s = copy_text(&v[i]);
        proof {
            assert(texts(r@.push(s)) =~= texts(r@).push(s@));
            assert(texts(v@.take(i + 1)) =~= texts(v@.take(i as int)).push(v@[i as int]@));
        }
        r.push(s);
        i = i + 1;
    }
    assert(v@.take(v.len() as int) =~= v@);
    r
}

impl WslProbeIssue {
    pub fn duplicate(&self) -> (r: Self)
        ensures
            r@ == self@,
    {
        WslProbeIssue {
            category: self.category,
            code: self.code,
            message: copy_text(&self.message),
            stderr_summary: copy_opt_text(&self.stderr_summary),
        }
    }
}

impl WslCommandObservation {
    pub fn duplicate(&self) -> (r: Self)
        ensures
            r@ == self@,
    {
        WslCommandObservation {
            category: self.category,
            latency_ms: self.latency_ms,
            status_code: self.status_code,
            stderr_summary: copy_opt_text(&self.stderr_summary),
        }
    }
}

impl WslDistro {
    pub fn duplicate(&self) -> (r: Self)
        ensures
            r@ == self@,
    {
        WslDistro {
            name: copy_text(&self.name),
            state: copy_text(&self.state),
            version: self.version,
        }
    }
}

impl WslCliProbeResult {
    pub fn duplicate(&self) -> (r: Self)
        ensures
            r@ == self@,
    {
        WslCliProbeResult {
            command: copy_text(&self.command),
            found_path: copy_opt_text(&self.found_path),
            available: self.available,
            probe_mode: copy_text(&self.probe_mode),
            observation: self.observation.duplicate(),
        }
    }
}

impl WslDistroProbe {
    pub fn duplicate(&self) -> (r: Self)
        ensures
            r@ == self@,
    {
        WslDistroProbe {
            distro: self.distro.duplicate(),
            cli_probe: match &self.cli_probe {
                Some(c) => Some(c.duplicate()),
                None => None,
            },
            skipped_reason: copy_opt_text(&self.skipped_reason),
        }
    }
}

pub fn copy_issues(v: &Vec<WslProbeIssue>) -> (r: Vec<WslProbeIssue>)
    ensures
        issue_views(r@) == issue_views(v@),
{
    let mut r: Vec<WslProbeIssue> = Vec::new();
    let mut i: usize = 0;
    while i < v.len()
        invariant
            i <= v.len(),
            issue_views(r@) == issue_views(v@.take(i as int)),
        decreases v.len() - i,
    {
        let s = v[i].duplicate();
        proof {
            assert(issue_views(r@.push(s)) =~= issue_views(r@).push(s@));
            assert(issue_views(v@.take(i + 1)) =~= issue_views(v@.take(i as int)).push(
                v@[i as int]@,
            ));
        }
        r.push(s);
        i = i + 1;
    }
    assert(v@.take(v.len() as int) =~= v@);
    r
}

pub fn copy_probes(v: &Vec<WslDistroProbe>) -> (r: Vec<WslDistroProbe>)
    ensures
        probe_views(r@) == probe_views(v@),
{
    let mut r: Vec<WslDistroProbe> = Vec::new();
    let mut i: usize = 0;
    while i < v.len()
        invariant
            i <= v.len(),
            probe_views(r@) == probe_views(v@.take(i as int)),
        decreases v.len() - i,
    {
        let s = v[i].duplicate();
        proof {
            assert(probe_views(r@.push(s)) =~= probe_views(r@).push(s@));
            assert(probe_views(v@.take(i + 1)) =~= probe_views(v@.take(i as int)).push(
                v@[i as int]@,
            ));
        }
        r.push(s);
        i = i + 1;
    }
    assert(v@.take(v.len() as int) =~= v@);
    r
}

impl WslProbeReport {
    pub fn duplicate(&self) -> (r: Self)
        ensures
            r@ == self@,
    {
        WslProbeReport {
            wsl_available: self.wsl_available,
            status: match &self.status {
                Some(s) => Some(WslStatus { lines: copy_texts(&s.lines) }),
                None => None,
            },
            version: match &self.version {
                Some(s) => Some(WslVersion { lines: copy_texts(&s.lines) }),
                None => None,
            },
            distros: copy_probes(&self.distros),
            issues: copy_issues(&self.issues),
        }
    }

    /// A report for a host where `wsl.exe --status` did not succeed.
    pub fn unavailable(issue: WslProbeIssue) -> (r: Self)
        ensures
            r@ == unavailable_report(issue@),
    {
        let mut issues: Vec<WslProbeIssue> = Vec::new();
        issues.push(issue);
        let r = WslProbeReport {
            wsl_available: false,
            status: None,
            version: None,
            distros: Vec::new(),
            issues,
        };
        assert(r@.distros =~= Seq::<DistroProbeV>::empty());
        assert(r@.issues =~= seq![issue@]);
        r
    }
}

pub open spec fn unavailable_report(issue: IssueV) -> ReportV {
    ReportV {
        wsl_available: false,
        status: None,
        version: None,
        distros: Seq::empty(),
        issues: seq![issue],
    }
}

// ---------------------------------------------------------------------------
// Small helpers on raw output
// ---------------------------------------------------------------------------

pub open spec fn success(raw: RawV) -> bool {
    raw.status_code == Some(0i32)
}

pub fn is_success(raw: &WslRawOutput) -> (r: bool)
    ensures
        r == success(raw@),
{
    match raw.status_code {
        Some(c) => c == 0,
        None => false,
    }
}

pub fn strings_of(v: &Vec<Vec<char>>) -> (r: Vec<String>)
    ensures
        texts(r@) == views(v@),
{
    let mut r: Vec<String> = Vec::new();
    let mut i: usize = 0;
    while i < v.len()
        invariant
            i <= v.len(),
            texts(r@) == views(v@.take(i as int)),
        decreases v.len() - i,
    {
        let s = string_from_chars(v[i].as_slice());
        proof {
            assert(texts(r@.push(s)) =~= texts(r@).push(s@));
            assert(views(v@.take(i + 1)) =~= views(v@.take(i as int)).push(v@[i as int]@));
        }
        r.push(s);
        i = i + 1;
    }
    assert(v@.take(v.len() as int) =~= v@);
    r
}

/// Non-empty trimmed lines of `stdout`.
pub fn parse_lines(stdout: &str) -> (r: Vec<String>)
    ensures
        texts(r@) == clean_lines(stdout@),
{
    let cs = chars_of(stdout);
    let lines = clean_lines_of(cs.as_slice());
    strings_of(&lines)
}

/// `Option<i32>` as `{:?}` writes it.
pub open spec fn debug_status(code: Option<i32>) -> Seq<char> {
    match code {
        Some(v) => "Some("@ + decimal_i32(v as int) + ")"@,
        None => "None"@,
    }
}

pub open spec fn issue_text(message: Seq<char>, code: Option<i32>) -> Seq<char> {
    message + " (status="@ + debug_status(code) + ")"@
}

/// An issue for a command that ran but did not succeed.
pub fn issue_from_output(
    category: WslProbeCommandCategory,
    code: WslProbeErrorCode,
    message: &str,
    raw: &WslRawOutput,
    observation: WslCommandObservation,
) -> (r: WslProbeIssue)
    ensures
        r@ == (IssueV {
            category,
            code,
            message: issue_text(message@, raw.status_code),
            stderr_summary: observation@.stderr_summary,
        }),
{
    let mut out: Vec<char> = Vec::new();
    append_str(&mut out, message);
    append_str(&mut out, " (status=");
    match raw.status_code {
        Some(v) => {
            append_str(&mut out, "Some(");
            push_decimal_i32(&mut out, v);
            append_str(&mut out, ")");
        },
        None => {
            append_str(&mut out, "None");
        },
    }
    append_str(&mut out, ")");
    assert(out@ =~= issue_text(message@, raw.status_code));
    WslProbeIssue {
        category,
        code,
        message: string_from_chars(out.as_slice()),
        stderr_summary: observation.stderr_summary,
    }
}


// ---------------------------------------------------------------------------
// Decoding what `wsl.exe` prints
// ---------------------------------------------------------------------------

/// What `String::from_utf8_lossy` makes of `bytes`.
pub uninterp spec fn utf8_lossy_text(bytes: Seq<u8>) -> Seq<char>;

/// `String::from_utf8_lossy(bytes).into_owned()`: the text of `bytes`, each
/// invalid sequence replaced by U+FFFD; valid UTF-8 is decoded as it is.
#[verifier::external_body]
fn utf8_lossy(bytes: &[u8]) -> (r: String)
    ensures
        r@ == utf8_lossy_text(bytes@),
        vstd::utf8::valid_utf8(bytes@) ==> r@ == vstd::utf8::decode_utf8(bytes@),
{
    String::from_utf8_lossy(bytes).into_owned()
}

pub open spec fn is_surrogate(u: u16) -> bool {
    0xD800 <= u <= 0xDFFF
}

pub open spec fn is_high_surrogate(u: u16) -> bool {
    0xD800 <= u <= 0xDBFF
}

pub open spec fn is_low_surrogate(u: u16) -> bool {
    0xDC00 <= u <= 0xDFFF
}

/// UTF-16 decoding with every unpaired surrogate replaced by U+FFFD.
pub open spec fn utf16_text(u: Seq<u16>) -> Seq<char>
    decreases u.len(),
{
    if u.len() == 0 {
        Seq::empty()
    } else if !is_surrogate(u[0]) {
        seq![(u[0] as u32) as char] + utf16_text(u.drop_first())
    } else if is_high_surrogate(u[0]) && u.len() >= 2 && is_low_surrogate(u[1]) {
        seq![
            (0x10000 + (u[0] as u32 - 0xD800) * 0x400 + (u[1] as u32 - 0xDC00)) as u32 as char,
        ] + utf16_text(u.skip(2))
    } else {
        seq!['\u{FFFD}'] + utf16_text(u.drop_first())
    }
}

/// `String::from_utf16_lossy`: UTF-16 decoding, each unpaired surrogate
/// replaced by U+FFFD.
#[verifier::external_body]
fn utf16_lossy(units: &[u16]) -> (r: String)
    ensures
        r@ == utf16_text(units@),
{
    String::from_utf16_lossy(units)
}

pub open spec fn le_units(b: Seq<u8>) -> Seq<u16> {
    Seq::new(b.len() / 2, |i: int| (b[2 * i] as int + 256 * b[2 * i + 1] as int) as u16)
}

pub open spec fn be_units(b: Seq<u8>) -> Seq<u16> {
    Seq::new(b.len() / 2, |i: int| (256 * b[2 * i] as int + b[2 * i + 1] as int) as u16)
}

/// Number of the first `n` byte pairs whose `lane` byte is zero and whose
/// other byte is not.
pub open spec fn nul_lane_count(b: Seq<u8>, lane: int, n: int) -> nat
    decreases n,
{
    if n <= 0 {
        0
    } else {
        nul_lane_count(b, lane, n - 1) + if b[2 * (n - 1) + lane] == 0 && b[2 * (n - 1) + 1
            - lane] != 0 {
            1nat
        } else {
            0nat
        }
    }
}

/// At least eight bytes, an even count, and at least half of the pairs look
/// like an ASCII code unit with its zero byte in `lane`.
pub open spec fn utf16_shaped(b: Seq<u8>, lane: int) -> bool {
    b.len() >= 8 && b.len() % 2 == 0 && 2 * nul_lane_count(b, lane, (b.len() / 2) as int) >= b.len() / 2
}

/// The text of a process output: UTF-16 with a byte order mark, UTF-16
/// recognised by its zero bytes, or else UTF-8 (lossy).
pub open spec fn output_text(b: Seq<u8>) -> Seq<char> {
    if b.len() >= 2 && b[0] == 0xff && b[1] == 0xfe {
        utf16_text(le_units(b.skip(2)))
    } else if b.len() >= 2 && b[0] == 0xfe && b[1] == 0xff {
        utf16_text(be_units(b.skip(2)))
    } else if utf16_shaped(b, 1) {
        utf16_text(le_units(b))
    } else if utf16_shaped(b, 0) {
        utf16_text(be_units(b))
    } else if vstd::utf8::valid_utf8(b) {
        vstd::utf8::decode_utf8(b)
    } else {
        utf8_lossy_text(b)
    }
}

/// The UTF-16 code units of one character.
pub open spec fn utf16_units_of(c: char) -> Seq<u16> {
    let v = c as u32;
    if v < 0x10000 {
        seq![v as u16]
    } else {
        let w = v - 0x10000;
        seq![(0xD800 + w / 0x400) as u16, (0xDC00 + w % 0x400) as u16]
    }
}

/// UTF-16 encoding (what `str::encode_utf16` yields).
pub open spec fn utf16_encode(s: Seq<char>) -> Seq<u16>
    decreases s.len(),
{
    if s.len() == 0 {
        Seq::empty()
    } else {
        utf16_units_of(s[0]) + utf16_encode(s.drop_first())
    }
}

/// Code units as little-endian byte pairs.
pub open spec fn le_bytes(u: Seq<u16>) -> Seq<u8> {
    Seq::new(
        2 * u.len(),
        |i: int| if i % 2 == 0 {
            (u[i / 2] % 256) as u8
        } else {
            (u[i / 2] / 256) as u8
        },
    )
}

/// Code units as big-endian byte pairs.
pub open spec fn be_bytes(u: Seq<u16>) -> Seq<u8> {
    Seq::new(
        2 * u.len(),
        |i: int| if i % 2 == 0 {
            (u[i / 2] / 256) as u8
        } else {
            (u[i / 2] % 256) as u8
        },
    )
}

proof fn lemma_units_of_bytes(u: Seq<u16>)
    ensures
        le_units(le_bytes(u)) == u,
        be_units(be_bytes(u)) == u,
{
    let l = le_bytes(u);
    let b = be_bytes(u);
    assert forall|i: int| 0 <= i < u.len() implies #[trigger] le_units(l)[i] == u[i] by {
        assert((2 * i) % 2 == 0 && (2 * i) / 2 == i);
        assert((2 * i + 1) % 2 == 1 && (2 * i + 1) / 2 == i);
        assert(l[2 * i] == (u[i] % 256) as u8);
        assert(l[2 * i + 1] == (u[i] / 256) as u8);
    }
    assert forall|i: int| 0 <= i < u.len() implies #[trigger] be_units(b)[i] == u[i] by {
        assert((2 * i) % 2 == 0 && (2 * i) / 2 == i);
        assert((2 * i + 1) % 2 == 1 && (2 * i + 1) / 2 == i);
        assert(b[2 * i] == (u[i] / 256) as u8);
        assert(b[2 * i + 1] == (u[i] % 256) as u8);
    }
    assert(le_units(l) =~= u);
    assert(be_units(b) =~= u);
}

proof fn lemma_utf16_round_trip(s: Seq<char>)
    ensures
        utf16_text(utf16_encode(s)) == s,
    decreases s.len(),
{
    if s.len() > 0 {
        let c = s[0];
        let v = c as u32;
        vstd::utf8::char_is_scalar(c);
        let rest = utf16_encode(s.drop_first());
        let u = utf16_encode(s);
        lemma_utf16_round_trip(s.drop_first());
        if v < 0x10000 {
            assert(u[0] == v as u16);
            assert(!is_surrogate(u[0]));
            assert(u.drop_first() =~= rest);
            vstd::utf8::char_u32_cast(c, u[0] as u32);
            assert(utf16_text(u) =~= seq![c] + s.drop_first());
        } else {
            let w = v - 0x10000;
            let hi = (0xD800 + w / 0x400) as u16;
            let lo = (0xDC00 + w % 0x400) as u16;
            assert(u[0] == hi && u[1] == lo);
            assert(is_high_surrogate(hi) && is_low_surrogate(lo));
            assert(u.skip(2) =~= rest);
            let back = (0x10000 + (hi as u32 - 0xD800) * 0x400 + (lo as u32 - 0xDC00)) as u32;
            assert(back == v);
            vstd::utf8::char_u32_cast(c, back);
            assert(utf16_text(u) =~= seq![c] + s.drop_first());
        }
        assert(seq![c] + s.drop_first() =~= s);
    }
}

proof fn lemma_scalar_bytes(c: char)
    ensures
        encode_scalar_first_below_f8(c),
        c != '\0' ==> forall|i: int|
            0 <= i < vstd::utf8::encode_scalar(c as u32).len() ==> #[trigger] vstd::utf8::encode_scalar(
                c as u32,
            )[i] != 0,
{
    let v = c as u32;
    vstd::utf8::char_is_scalar(c);
    let e = vstd::utf8::encode_scalar(v);
    if v <= 0x7F {
        assert((v & 0x7F) as u8 <= 0x7F) by (bit_vector);
        assert(v != 0 ==> (v & 0x7F) as u8 != 0) by (bit_vector)
            requires
                v <= 0x7F,
        ;
        assert(c != '\0' ==> v != 0);
    } else {
        assert((0x80u8 | ((v & 0x3F) as u8)) != 0) by (bit_vector);
        assert((0x80u8 | (((v >> 6) & 0x3F) as u8)) != 0) by (bit_vector);
        assert((0x80u8 | (((v >> 12) & 0x3F) as u8)) != 0) by (bit_vector);
        assert((0xC0u8 | (((v >> 6) & 0x1F) as u8)) != 0 && (0xC0u8 | (((v >> 6) & 0x1F) as u8))
            < 0xF8) by (bit_vector);
        assert((0xE0u8 | (((v >> 12) & 0x0F) as u8)) != 0 && (0xE0u8 | (((v >> 12) & 0x0F) as u8))
            < 0xF8) by (bit_vector);
        assert((0xF0u8 | (((v >> 18) & 0x7) as u8)) != 0 && (0xF0u8 | (((v >> 18) & 0x7) as u8))
            < 0xF8) by (bit_vector);
    }
}

/// The first byte of a character's UTF-8 encoding is below `0xF8`.
pub open spec fn encode_scalar_first_below_f8(c: char) -> bool {
    vstd::utf8::encode_scalar(c as u32)[0] < 0xF8
}

proof fn lemma_encode_utf8_bytes(s: Seq<char>)
    ensures
        s.len() > 0 ==> vstd::utf8::encode_utf8(s).len() > 0 && vstd::utf8::encode_utf8(s)[0] < 0xF8,
        (forall|i: int| 0 <= i < s.len() ==> s[i] != '\0') ==> forall|j: int|
            0 <= j < vstd::utf8::encode_utf8(s).len() ==> #[trigger] vstd::utf8::encode_utf8(s)[j]
                != 0,
    decreases s.len(),
{
    if s.len() > 0 {
        let e = vstd::utf8::encode_scalar(s[0] as u32);
        let r = vstd::utf8::encode_utf8(s.drop_first());
        lemma_scalar_bytes(s[0]);
        lemma_encode_utf8_bytes(s.drop_first());
        let all = vstd::utf8::encode_utf8(s);
        assert(all == e + r);
        assert(e.len() > 0);
        assert(all[0] == e[0]);
        if forall|i: int| 0 <= i < s.len() ==> s[i] != '\0' {
            assert(s[0] != '\0');
            assert forall|i: int| 0 <= i < s.drop_first().len() implies s.drop_first()[i] != '\0' by {
                assert(s.drop_first()[i] == s[i + 1]);
            }
            assert forall|j: int| 0 <= j < all.len() implies #[trigger] all[j] != 0 by {
                if j < e.len() {
                    assert(all[j] == e[j]);
                } else {
                    assert(all[j] == r[j - e.len()]);
                }
            }
        }
    }
}

proof fn lemma_no_nul_lane(b: Seq<u8>, lane: int, n: int)
    requires
        0 <= lane <= 1,
        0 <= n <= b.len() / 2,
        forall|j: int| 0 <= j < b.len() ==> #[trigger] b[j] != 0,
    ensures
        nul_lane_count(b, lane, n) == 0,
    decreases n,
{
    if n > 0 {
        lemma_no_nul_lane(b, lane, n - 1);
        assert(b[2 * (n - 1) + lane] != 0);
    }
}

/// Text written as UTF-16 behind a byte order mark (either byte order), or
/// as UTF-8 without NUL characters, decodes back to that text.
pub proof fn law_decoding_gives_encoded_text_back(s: Seq<char>)
    ensures
        output_text(seq![0xffu8, 0xfeu8] + le_bytes(utf16_encode(s))) == s,
        output_text(seq![0xfeu8, 0xffu8] + be_bytes(utf16_encode(s))) == s,
        (forall|i: int| 0 <= i < s.len() ==> s[i] != '\0') ==> output_text(
            vstd::utf8::encode_utf8(s),
        ) == s,
{
    let u = utf16_encode(s);
    lemma_units_of_bytes(u);
    lemma_utf16_round_trip(s);
    assert((seq![0xffu8, 0xfeu8] + le_bytes(u)).skip(2) =~= le_bytes(u));
    assert((seq![0xfeu8, 0xffu8] + be_bytes(u)).skip(2) =~= be_bytes(u));
    if forall|i: int| 0 <= i < s.len() ==> s[i] != '\0' {
        let b = vstd::utf8::encode_utf8(s);
        lemma_encode_utf8_bytes(s);
        if b.len() >= 8 && b.len() % 2 == 0 {
            lemma_no_nul_lane(b, 0, (b.len() / 2) as int);
            lemma_no_nul_lane(b, 1, (b.len() / 2) as int);
        }
        vstd::utf8::encode_utf8_valid_utf8(s);
        vstd::utf8::encode_utf8_decode_utf8(s);
    }
}

fn units_of(b: &[u8], from: usize, little_endian: bool) -> (r: Vec<u16>)
    requires
        from <= b.len(),
    ensures
        r@ == if little_endian {
            le_units(b@.skip(from as int))
        } else {
            be_units(b@.skip(from as int))
        },
{
    let ghost t = b@.skip(from as int);
    let n = (b.len() - from) / 2;
    let mut r: Vec<u16> = Vec::new();
    let mut i: usize = 0;
    while i < n
        invariant
            from <= b.len(),
            t == b@.skip(from as int),
            n == t.len() / 2,
            i <= n,
            r@.len() == i,
            forall|k: int|
                0 <= k < i ==> #[trigger] r@[k] == (if little_endian {
                    le_units(t)[k]
                } else {
                    be_units(t)[k]
                }),
        decreases n - i,
    {
        let lo = b[from + 2 * i];
        let hi = b[from + 2 * i + 1];
        assert(t[2 * i as int] == lo);
        assert(t[2 * i + 1] == hi);
        let u: u16 = if little_endian {
            (lo as u16) + 256 * (hi as u16)
        } else {
            256 * (lo as u16) + (hi as u16)
        };
        r.push(u);
        i = i + 1;
    }
    proof {
        if little_endian {
            assert(r@ =~= le_units(t));
        } else {
            assert(r@ =~= be_units(t));
        }
    }
    r
}

pub fn looks_like_utf16_with_nul_lane(bytes: &[u8], nul_lane: usize) -> (r: bool)
    requires
        nul_lane <= 1,
    ensures
        r == utf16_shaped(bytes@, nul_lane as int),
{
    if bytes.len() < 8 || bytes.len() % 2 != 0 {
        return false;
    }
    let pairs = bytes.len() / 2;
    let mut count: usize = 0;
    let mut i: usize = 0;
    while i < pairs
        invariant
            nul_lane <= 1,
            pairs == bytes.len() / 2,
            i <= pairs,
            count == nul_lane_count(bytes@, nul_lane as int, i as int),
            count <= i,
        decreases pairs - i,
    {
        if bytes[2 * i + nul_lane] == 0 && bytes[2 * i + 1 - nul_lane] != 0 {
            count = count + 1;
        }
        i = i + 1;
    }
    count * 2 >= pairs
}

pub fn looks_like_utf16le(bytes: &[u8]) -> (r: bool)
    ensures
        r == utf16_shaped(bytes@, 1),
{
    looks_like_utf16_with_nul_lane(bytes, 1)
}

pub fn looks_like_utf16be(bytes: &[u8]) -> (r: bool)
    ensures
        r == utf16_shaped(bytes@, 0),
{
    looks_like_utf16_with_nul_lane(bytes, 0)
}

pub fn decode_utf16(units: &[u16]) -> (r: String)
    ensures
        r@ == utf16_text(units@),
{
    utf16_lossy(units)
}

/// The text of the bytes a `wsl.exe` run wrote.
pub fn decode_process_output(bytes: &[u8]) -> (r: String)
    ensures
        r@ == output_text(bytes@),
{
    if bytes.len() >= 2 && bytes[0] == 0xff && bytes[1] == 0xfe {
        let u = units_of(bytes, 2, true);
        return decode_utf16(u.as_slice());
    }
    if bytes.len() >= 2 && bytes[0] == 0xfe && bytes[1] == 0xff {
        let u = units_of(bytes, 2, false);
        return decode_utf16(u.as_slice());
    }
    assert(bytes@.skip(0) =~= bytes@);
    if looks_like_utf16le(bytes) {
        let u = units_of(bytes, 0, true);
        return decode_utf16(u.as_slice());
    }
    if looks_like_utf16be(bytes) {
        let u = units_of(bytes, 0, false);
        return decode_utf16(u.as_slice());
    }
    utf8_lossy(bytes)
}


// ---------------------------------------------------------------------------
// `wsl.exe --list --verbose`
// ---------------------------------------------------------------------------

/// What one line of the listing stands for.
pub enum ListLine {
    Header,
    Invalid(Seq<char>),
    Distro(DistroV),
}

pub open spec fn opt_u8(v: Option<nat>) -> Option<u8> {
    match v {
        Some(n) => Some(n as u8),
        None => None,
    }
}

/// One non-empty trimmed line: the header (`NAME ...`, any case), a row
/// `[*] <name...> <state> <version>`, or an invalid row.
pub open spec fn list_line(line: Seq<char>) -> ListLine {
    if starts_with(lower_seq(line), "name"@) {
        ListLine::Header
    } else {
        let l = trim(strip_stars(line));
        let parts = words(l);
        if parts.len() < 3 {
            ListLine::Invalid("invalid WSL list row: "@ + l)
        } else {
            ListLine::Distro(
                DistroV {
                    name: join(parts.take(parts.len() - 2), seq![' ']),
                    state: parts[parts.len() - 2],
                    version: opt_u8(parse_unsigned(parts.last(), 255)),
                },
            )
        }
    }
}

/// The distros of the lines in order, or the message of the first invalid row.
pub open spec fn list_rows(lines: Seq<Seq<char>>) -> Result<Seq<DistroV>, Seq<char>>
    decreases lines.len(),
{
    if lines.len() == 0 {
        Ok(Seq::empty())
    } else {
        match list_rows(lines.drop_last()) {
            Err(e) => Err(e),
            Ok(ds) => match list_line(lines.last()) {
                ListLine::Header => Ok(ds),
                ListLine::Invalid(m) => Err(m),
                ListLine::Distro(d) => Ok(ds.push(d)),
            },
        }
    }
}

pub open spec fn wsl_list(stdout: Seq<char>) -> Result<Seq<DistroV>, Seq<char>> {
    list_rows(clean_lines(stdout))
}

/// Two listings read one after the other: the first error, else all the
/// distros in order.
pub open spec fn then_rows(
    x: Result<Seq<DistroV>, Seq<char>>,
    y: Result<Seq<DistroV>, Seq<char>>,
) -> Result<Seq<DistroV>, Seq<char>> {
    match (x, y) {
        (Err(e), _) => Err(e),
        (Ok(_), Err(e)) => Err(e),
        (Ok(a), Ok(b)) => Ok(a + b),
    }
}

proof fn lemma_list_rows_concat(x: Seq<Seq<char>>, y: Seq<Seq<char>>)
    ensures
        list_rows(x + y) == then_rows(list_rows(x), list_rows(y)),
    decreases y.len(),
{
    if y.len() == 0 {
        assert(x + y =~= x);
        match list_rows(x) {
            Ok(a) => {
                assert(a + Seq::<DistroV>::empty() =~= a);
            },
            Err(_) => {},
        }
    } else {
        lemma_list_rows_concat(x, y.drop_last());
        assert((x + y).drop_last() =~= x + y.drop_last());
        assert((x + y).last() == y.last());
        match (list_rows(x), list_rows(y.drop_last())) {
            (Ok(a), Ok(b)) => {
                match list_line(y.last()) {
                    ListLine::Distro(d) => {
                        assert((a + b).push(d) =~= a + b.push(d));
                    },
                    _ => {},
                }
            },
            _ => {},
        }
    }
}

/// Parsing a listing whose lines are those of `a` then those of `b` gives
/// the distros of `a` then those of `b`, or the first invalid row's message.
pub proof fn law_listing_reads_line_by_line(a: Seq<char>, b: Seq<char>)
    ensures
        wsl_list(a.push('\n') + b) == then_rows(wsl_list(a), wsl_list(b)),
{
    crate::text::lemma_clean_lines_concat(a, b);
    lemma_list_rows_concat(clean_lines(a), clean_lines(b));
}

enum ParsedLine {
    Header,
    Invalid(String),
    Distro(WslDistro),
}

fn parse_list_line(line: &[char]) -> (r: ParsedLine)
    ensures
        match (r, list_line(line@)) {
            (ParsedLine::Header, ListLine::Header) => true,
            (ParsedLine::Invalid(m), ListLine::Invalid(n)) => m@ == n,
            (ParsedLine::Distro(d), ListLine::Distro(e)) => d@ == e,
            _ => false,
        },
{
    let lower = lower_chars(line);
    let name = chars_of("name");
    if starts_with_chars(lower.as_slice(), name.as_slice()) {
        return ParsedLine::Header;
    }
    let stripped = strip_stars_chars(line);
    let l = trim_chars(stripped.as_slice());
    let parts = words_of(l.as_slice());
    proof {
        assert(views(parts@).len() == parts@.len());
    }
    if parts.len() < 3 {
        let mut m: Vec<char> = Vec::new();
        append_str(&mut m, "invalid WSL list row: ");
        append_chars(&mut m, l.as_slice());
        return ParsedLine::Invalid(string_from_chars(m.as_slice()));
    }
    let n = parts.len();
    let space = [' '];
    assert(space@ =~= seq![' ']);
    let joined = join_prefix(parts.as_slice(), n - 2, &space);
    let state = string_from_chars(parts[n - 2].as_slice());
    let version = match parse_unsigned_chars(parts[n - 1].as_slice(), 255) {
        Some(v) => Some(v as u8),
        None => None,
    };
    proof {
        assert(views(parts@)[n - 2] == parts@[n - 2]@);
        assert(views(parts@).last() == parts@[n - 1]@);
    }
    ParsedLine::Distro(WslDistro { name: string_from_chars(joined.as_slice()), state, version })
}

/// Parse the rows of `wsl.exe --list --verbose`.
pub fn parse_wsl_list_verbose(stdout: &str) -> (r: Result<Vec<WslDistro>, String>)
    ensures
        match r {
            Ok(ds) => wsl_list(stdout@) == Ok::<Seq<DistroV>, Seq<char>>(distro_views(ds@)),
            Err(m) => wsl_list(stdout@) == Err::<Seq<DistroV>, Seq<char>>(m@),
        },
{
    let cs = chars_of(stdout);
    let lines = clean_lines_of(cs.as_slice());
    let ghost ls = views(lines@);
    let mut distros: Vec<WslDistro> = Vec::new();
    let mut i: usize = 0;
    assert(ls.take(0) =~= Seq::<Seq<char>>::empty());
    assert(distro_views(distros@) =~= Seq::<DistroV>::empty());
    while i < lines.len()
        invariant
            i <= lines.len(),
            ls == views(lines@),
            ls == clean_lines(stdout@),
            list_rows(ls.take(i as int)) == Ok::<Seq<DistroV>, Seq<char>>(distro_views(distros@)),
        decreases lines.len() - i,
    {
        assert(ls.take(i + 1).drop_last() =~= ls.take(i as int));
        assert(ls.take(i + 1).last() == lines@[i as int]@);
        match parse_list_line(lines[i].as_slice()) {
            ParsedLine::Header => {},
            ParsedLine::Invalid(m) => {
                proof {
                    lemma_list_rows_err_sticks(ls, i as int + 1, m@);
                }
                return Err(m);
            },
            ParsedLine::Distro(d) => {
                proof {
                    assert(distro_views(distros@.push(d)) =~= distro_views(distros@).push(d@));
                }
                distros.push(d);
            },
        }
        i = i + 1;
    }
    assert(ls.take(lines.len() as int) =~= ls);
    Ok(distros)
}

proof fn lemma_list_rows_err_sticks(ls: Seq<Seq<char>>, k: int, m: Seq<char>)
    requires
        0 <= k <= ls.len(),
        list_rows(ls.take(k)) == Err::<Seq<DistroV>, Seq<char>>(m),
    ensures
        list_rows(ls) == Err::<Seq<DistroV>, Seq<char>>(m),
    decreases ls.len() - k,
{
    if k == ls.len() {
        assert(ls.take(k) =~= ls);
    } else {
        assert(ls.take(k + 1).drop_last() =~= ls.take(k));
        lemma_list_rows_err_sticks(ls, k + 1, m);
    }
}

// ---------------------------------------------------------------------------
// The sentinel-terminated output of the user-shell CLI probe
// ---------------------------------------------------------------------------

pub struct SentinelScan {
    pub lines: Seq<Seq<char>>,
    pub code: Option<int>,
}

/// Lines other than the sentinel, and the sentinel's exit code; `None` once
/// a second sentinel follows a sentinel that carried a valid code.
pub open spec fn sentinel_scan(lines: Seq<Seq<char>>) -> Option<SentinelScan>
    decreases lines.len(),
{
    if lines.len() == 0 {
        Some(SentinelScan { lines: Seq::empty(), code: None })
    } else {
        match sentinel_scan(lines.drop_last()) {
            None => None,
            Some(st) => {
                let l = lines.last();
                if starts_with(l, CLI_PROBE_SENTINEL@) {
                    if st.code is Some {
                        None
                    } else {
                        Some(
                            SentinelScan {
                                lines: st.lines,
                                code: parse_i32(l.skip(CLI_PROBE_SENTINEL@.len() as int)),
                            },
                        )
                    }
                } else {
                    Some(SentinelScan { lines: st.lines.push(l), code: st.code })
                }
            },
        }
    }
}

/// `(found path, exit code)` from clean probe output: exit code 0 with
/// exactly one other line (the path), or a non-zero exit code alone.
pub open spec fn clean_shell_probe(stdout: Seq<char>) -> Option<(Option<Seq<char>>, int)> {
    match sentinel_scan(clean_lines(stdout)) {
        None => None,
        Some(st) => match st.code {
            None => None,
            Some(c) => if c == 0 {
                if st.lines.len() == 1 {
                    Some((Some(st.lines[0]), 0))
                } else {
                    None
                }
            } else if st.lines.len() == 0 {
                Some((None, c))
            } else {
                None
            },
        },
    }
}

pub fn parse_clean_shell_probe_stdout(stdout: &str) -> (r: Option<(Option<String>, i32)>)
    ensures
        match r {
            Some((p, c)) => clean_shell_probe(stdout@) == Some((opt_text(p), c as int)),
            None => clean_shell_probe(stdout@) is None,
        },
{
    let cs = chars_of(stdout);
    let lines = clean_lines_of(cs.as_slice());
    let ghost ls = views(lines@);
    let sentinel = chars_of(CLI_PROBE_SENTINEL);
    let mut output_lines: Vec<Vec<char>> = Vec::new();
    let mut sentinel_code: Option<i32> = None;
    let mut i: usize = 0;
    assert(ls.take(0) =~= Seq::<Seq<char>>::empty());
    assert(views(output_lines@) =~= Seq::<Seq<char>>::empty());
    while i < lines.len()
        invariant
            i <= lines.len(),
            ls == views(lines@),
            ls == clean_lines(stdout@),
            sentinel@ == CLI_PROBE_SENTINEL@,
            sentinel_scan(ls.take(i as int)) == Some(
                SentinelScan {
                    lines: views(output_lines@),
                    code: match sentinel_code {
                        Some(c) => Some(c as int),
                        None => None,
                    },
                },
            ),
        decreases lines.len() - i,
    {
        assert(ls.take(i + 1).drop_last() =~= ls.take(i as int));
        assert(ls.take(i + 1).last() == lines@[i as int]@);
        let line = &lines[i];
        if starts_with_chars(line.as_slice(), sentinel.as_slice()) {
            if sentinel_code.is_some() {
                proof {
                    lemma_sentinel_abort_sticks(ls, i as int + 1);
                }
                return None;
            }
            let rest = slice_to_vec(line.as_slice(), sentinel.len(), line.len());
            assert(rest@ =~= line@.skip(sentinel@.len() as int));
            sentinel_code = parse_i32_chars(rest.as_slice());
        } else {
            let kept = slice_to_vec(line.as_slice(), 0, line.len());
            assert(kept@ =~= line@);
            proof {
                lemma_views_push(output_lines@, kept);
            }
            output_lines.push(kept);
        }
        i = i + 1;
    }
    assert(ls.take(lines.len() as int) =~= ls);
    let code = match sentinel_code {
        Some(c) => c,
        None => {
            return None;
        },
    };
    if code == 0 {
        if output_lines.len() == 1 {
            let p = string_from_chars(output_lines[0].as_slice());
            return Some((Some(p), code));
        }
        return None;
    }
    if output_lines.len() == 0 {
        return Some((None, code));
    }
    None
}

proof fn lemma_sentinel_abort_sticks(ls: Seq<Seq<char>>, k: int)
    requires
        0 <= k <= ls.len(),
        sentinel_scan(ls.take(k)) is None,
    ensures
        sentinel_scan(ls) is None,
    decreases ls.len() - k,
{
    if k == ls.len() {
        assert(ls.take(k) =~= ls);
    } else {
        assert(ls.take(k + 1).drop_last() =~= ls.take(k));
        lemma_sentinel_abort_sticks(ls, k + 1);
    }
}


// ---------------------------------------------------------------------------
// Redacted stderr summaries
// ---------------------------------------------------------------------------

/// `t` cut just after the first (ASCII case-insensitive) `marker`, or after
/// its first `=`, with the rest replaced by `[REDACTED]`.
pub open spec fn assignment_redacted(t: Seq<char>, marker: Seq<char>) -> Seq<char> {
    match find(lower_seq(t), marker) {
        Some(i) => t.take(i + marker.len()) + "[REDACTED]"@,
        None => match find(t, "="@) {
            Some(i) => t.take(i) + "=[REDACTED]"@,
            None => "[REDACTED]"@,
        },
    }
}

/// A word with the value of a credential assignment hidden.
pub open spec fn redacted_word(t: Seq<char>) -> Seq<char> {
    let l = lower_seq(t);
    if contains(l, "token="@) {
        assignment_redacted(t, "token="@)
    } else if contains(l, "password="@) {
        assignment_redacted(t, "password="@)
    } else if contains(l, "secret="@) {
        assignment_redacted(t, "secret="@)
    } else if contains(l, "api_key="@) || contains(l, "apikey="@) {
        assignment_redacted(t, "="@)
    } else {
        t
    }
}

/// The words of a line with credentials hidden; the word after `Bearer`
/// (any case) is hidden whole.
pub open spec fn redacted_words(ws: Seq<Seq<char>>, pending: bool) -> Seq<Seq<char>>
    decreases ws.len(),
{
    if ws.len() == 0 {
        Seq::empty()
    } else if pending {
        seq!["[REDACTED]"@] + redacted_words(ws.drop_first(), false)
    } else if lower_seq(ws[0]) == "bearer"@ {
        seq!["Bearer"@] + redacted_words(ws.drop_first(), true)
    } else {
        seq![redacted_word(ws[0])] + redacted_words(ws.drop_first(), false)
    }
}

pub open spec fn redacted_line(line: Seq<char>) -> Seq<char> {
    join(redacted_words(words(line), false), " "@)
}

/// The word's lower-case form holds a credential assignment marker.
pub open spec fn carries_credential(t: Seq<char>) -> bool {
    let l = lower_seq(t);
    contains(l, "token="@) || contains(l, "password="@) || contains(l, "secret="@) || contains(
        l,
        "api_key="@,
    ) || contains(l, "apikey="@)
}

proof fn lemma_marker_cut(t: Seq<char>, marker: Seq<char>)
    requires
        marker.len() > 0,
        marker.last() == '=',
        contains(lower_seq(t), marker),
    ensures
        exists|k: int|
            0 < k <= t.len() && t[k - 1] == '=' && assignment_redacted(t, marker) == t.take(k)
                + "[REDACTED]"@,
{
    let l = lower_seq(t);
    crate::text::lemma_find_occurs(l, marker, 0);
    let i = find(l, marker)->Some_0;
    let k = i + marker.len();
    assert(l.subrange(i, k)[marker.len() - 1] == marker.last());
    assert(l[k - 1] == '=');
    assert(l[k - 1] == crate::text::lower(t[k - 1]));
    assert(t[k - 1] == '=');
    assert(assignment_redacted(t, marker) == t.take(k) + "[REDACTED]"@);
}

/// Whatever a credential word keeps ends at an `=` sign: every character
/// after it is replaced by `[REDACTED]`. A word without a credential
/// marker is left as it is.
pub proof fn law_credential_values_are_hidden(t: Seq<char>)
    ensures
        carries_credential(t) ==> exists|k: int|
            0 < k <= t.len() && t[k - 1] == '=' && redacted_word(t) == t.take(k) + "[REDACTED]"@,
        !carries_credential(t) ==> redacted_word(t) == t,
{
    reveal_strlit("token=");
    reveal_strlit("password=");
    reveal_strlit("secret=");
    reveal_strlit("api_key=");
    reveal_strlit("apikey=");
    reveal_strlit("=");
    let l = lower_seq(t);
    if contains(l, "token="@) {
        lemma_marker_cut(t, "token="@);
    } else if contains(l, "password="@) {
        lemma_marker_cut(t, "password="@);
    } else if contains(l, "secret="@) {
        lemma_marker_cut(t, "secret="@);
    } else if contains(l, "api_key="@) || contains(l, "apikey="@) {
        let m = if contains(l, "api_key="@) { "api_key="@ } else { "apikey="@ };
        crate::text::lemma_find_occurs(l, m, 0);
        let i = find(l, m)->Some_0;
        assert(l.subrange(i, i + m.len())[m.len() - 1] == '=');
        assert(l[i + m.len() - 1] == '=');
        let j = i + m.len() - 1;
        assert(l.subrange(j, j + 1) =~= "="@);
        assert(occurs_at(l, "="@, j));
        crate::text::lemma_find_some_when_occurs(l, "="@, 0, j);
        lemma_marker_cut(t, "="@);
    }
}

/// `s` holds no `=`.
pub open spec fn no_equals(s: Seq<char>) -> bool {
    forall|k: int| 0 <= k < s.len() ==> #[trigger] s[k] != '='
}

/// The credential markers, in lower case.
pub open spec fn credential_marker(m: Seq<char>) -> bool {
    ||| m == "token="@
    ||| m == "password="@
    ||| m == "secret="@
    ||| m == "api_key="@
    ||| m == "apikey="@
}

proof fn lemma_marker_shape(lm: Seq<char>)
    requires
        credential_marker(lm),
    ensures
        lm.len() > 0,
        lm.last() == '=',
        no_equals(lm.drop_last()),
{
    reveal_strlit("token=");
    reveal_strlit("password=");
    reveal_strlit("secret=");
    reveal_strlit("api_key=");
    reveal_strlit("apikey=");
    if lm == "token="@ {
        assert(lm =~= seq!['t', 'o', 'k', 'e', 'n', '=']);
    } else if lm == "password="@ {
        assert(lm =~= seq!['p', 'a', 's', 's', 'w', 'o', 'r', 'd', '=']);
    } else if lm == "secret="@ {
        assert(lm =~= seq!['s', 'e', 'c', 'r', 'e', 't', '=']);
    } else if lm == "api_key="@ {
        assert(lm =~= seq!['a', 'p', 'i', '_', 'k', 'e', 'y', '=']);
    } else {
        assert(lm =~= seq!['a', 'p', 'i', 'k', 'e', 'y', '=']);
    }
}

proof fn lemma_find_from_first(s: Seq<char>, p: Seq<char>, from: int)
    requires
        from >= 0,
    ensures
        crate::text::find_from(s, p, from) matches Some(i) ==> from <= i && occurs_at(s, p, i) && forall|j: int|
            from <= j < i ==> !occurs_at(s, p, j),
        crate::text::find_from(s, p, from) is None ==> forall|j: int| from <= j ==> !occurs_at(s, p, j),
    decreases s.len() + 1 - from,
{
    if !(from + p.len() > s.len()) && !occurs_at(s, p, from) {
        lemma_find_from_first(s, p, from + 1);
    }
}

/// In `x + y1` and `x + y2`, where the only `=` is the last character of
/// `x`, a pattern ending in `=` is found at the same place, and only where
/// it ends with `x`.
proof fn lemma_find_before_value(x: Seq<char>, y1: Seq<char>, y2: Seq<char>, mk: Seq<char>)
    requires
        x.len() > 0,
        x.last() == '=',
        no_equals(x.drop_last()),
        no_equals(y1),
        no_equals(y2),
        mk.len() > 0,
        mk.last() == '=',
    ensures
        find(x + y1, mk) == find(x + y2, mk),
        find(x + y1, mk) matches Some(i) ==> i + mk.len() == x.len(),
{
    let s1 = x + y1;
    let s2 = x + y2;
    assert forall|i: int| occurs_at(s1, mk, i) implies i + mk.len() == x.len() by {
        assert(s1.subrange(i, i + mk.len())[mk.len() - 1] == mk.last());
        let e = i + mk.len() - 1;
        assert(s1[e] == '=');
        if e < x.len() - 1 {
            assert(x.drop_last()[e] == s1[e]);
        } else if e >= x.len() {
            assert(y1[e - x.len()] == s1[e]);
        }
    }
    assert forall|i: int| occurs_at(s2, mk, i) implies i + mk.len() == x.len() by {
        assert(s2.subrange(i, i + mk.len())[mk.len() - 1] == mk.last());
        let e = i + mk.len() - 1;
        assert(s2[e] == '=');
        if e < x.len() - 1 {
            assert(x.drop_last()[e] == s2[e]);
        } else if e >= x.len() {
            assert(y2[e - x.len()] == s2[e]);
        }
    }
    assert forall|i: int| occurs_at(s1, mk, i) <==> occurs_at(s2, mk, i) by {
        if occurs_at(s1, mk, i) || occurs_at(s2, mk, i) {
            if 0 <= i && i + mk.len() == x.len() {
                assert(s1.subrange(i, i + mk.len()) =~= s2.subrange(i, i + mk.len()));
            }
        }
    }
    lemma_find_from_first(s1, mk, 0);
    lemma_find_from_first(s2, mk, 0);
    match (find(s1, mk), find(s2, mk)) {
        (Some(i1), Some(i2)) => {
            assert(!(i1 < i2) && !(i2 < i1));
        },
        _ => {},
    }
}

proof fn lemma_lower_equals(s: Seq<char>)
    ensures
        forall|k: int| 0 <= k < s.len() ==> (#[trigger] lower_seq(s)[k] == '=' <==> s[k] == '='),
{
}

/// A credential word `a + m + v`: what it is redacted to does not depend on
/// the value `v`, and is `a + m + "[REDACTED]"`.
proof fn lemma_credential_word(a: Seq<char>, m: Seq<char>, v1: Seq<char>, v2: Seq<char>)
    requires
        credential_marker(lower_seq(m)),
        no_equals(a),
        no_equals(v1),
        no_equals(v2),
    ensures
        redacted_word(a + m + v1) == a + m + "[REDACTED]"@,
        redacted_word(a + m + v2) == a + m + "[REDACTED]"@,
{
    reveal_strlit("token=");
    reveal_strlit("password=");
    reveal_strlit("secret=");
    reveal_strlit("api_key=");
    reveal_strlit("apikey=");
    reveal_strlit("=");
    let x = a + m;
    let lm = lower_seq(m);
    lemma_lower_equals(m);
    lemma_marker_shape(lm);
    assert(m.len() > 0 && m.last() == '=') by {
        assert(lm.last() == '=');
    }
    assert(no_equals(x.drop_last())) by {
        assert forall|k: int| 0 <= k < x.drop_last().len() implies #[trigger] x.drop_last()[k] != '=' by {
            if k >= a.len() {
                assert(x.drop_last()[k] == m[k - a.len()]);
                assert(lm.drop_last()[k - a.len()] != '=');
            } else {
                assert(x.drop_last()[k] == a[k]);
            }
        }
    }
    assert(x.last() == '=');
    let lx = lower_seq(x);
    lemma_lower_equals(x);
    assert(lx.last() == '=');
    assert(no_equals(lx.drop_last())) by {
        assert forall|k: int| 0 <= k < lx.drop_last().len() implies #[trigger] lx.drop_last()[k] != '=' by {
            assert(x.drop_last()[k] != '=');
        }
    }
    let t1 = x + v1;
    let t2 = x + v2;
    assert(a + m + v1 == t1);
    assert(a + m + v2 == t2);
    let lv1 = lower_seq(v1);
    let lv2 = lower_seq(v2);
    lemma_lower_equals(v1);
    lemma_lower_equals(v2);
    assert(lower_seq(t1) =~= lx + lv1);
    assert(lower_seq(t2) =~= lx + lv2);
    // the marker occurs in both words, just before the value
    assert(occurs_at(lx + lv1, lm, a.len() as int)) by {
        assert((lx + lv1).subrange(a.len() as int, (a.len() + m.len()) as int) =~= lm);
    }
    assert(occurs_at(lx + lv2, lm, a.len() as int)) by {
        assert((lx + lv2).subrange(a.len() as int, (a.len() + m.len()) as int) =~= lm);
    }
    crate::text::lemma_find_some_when_occurs(lx + lv1, lm, 0, a.len() as int);
    crate::text::lemma_find_some_when_occurs(lx + lv2, lm, 0, a.len() as int);
    let markers = seq!["token="@, "password="@, "secret="@, "api_key="@, "apikey="@, "="@];
    assert forall|k: int| 0 <= k < markers.len() implies #[trigger] find(lx + lv1, markers[k]) == find(
        lx + lv2,
        markers[k],
    ) && (find(lx + lv1, markers[k]) matches Some(i) ==> i + markers[k].len() == x.len()) by {
        lemma_find_before_value(lx, lv1, lv2, markers[k]);
    }
    assert(find(lx + lv1, markers[0]) == find(lx + lv2, markers[0]));
    assert(find(lx + lv1, markers[1]) == find(lx + lv2, markers[1]));
    assert(find(lx + lv1, markers[2]) == find(lx + lv2, markers[2]));
    assert(find(lx + lv1, markers[3]) == find(lx + lv2, markers[3]));
    assert(find(lx + lv1, markers[4]) == find(lx + lv2, markers[4]));
    assert(find(lx + lv1, markers[5]) == find(lx + lv2, markers[5]));
    // the `=` closing the marker is found too
    assert(occurs_at(lx + lv1, "="@, x.len() - 1)) by {
        assert((lx + lv1).subrange(x.len() - 1, x.len() as int) =~= "="@);
    }
    crate::text::lemma_find_some_when_occurs(lx + lv1, "="@, 0, x.len() - 1);
    assert(t1.take(x.len() as int) =~= x);
    assert(t2.take(x.len() as int) =~= x);
    assert(x + "[REDACTED]"@ == a + m + "[REDACTED]"@);
}

/// The words of a line with one word changed redact alike when the change
/// is confined to what redaction hides.
proof fn lemma_redacted_words_agree(ws1: Seq<Seq<char>>, ws2: Seq<Seq<char>>, pending: bool, i: int)
    requires
        ws1.len() == ws2.len(),
        0 <= i < ws1.len(),
        forall|k: int| 0 <= k < ws1.len() && k != i ==> #[trigger] ws1[k] == ws2[k],
        ({
            ||| (redacted_word(ws1[i]) == redacted_word(ws2[i]) && lower_seq(ws1[i]) != "bearer"@
                && lower_seq(ws2[i]) != "bearer"@)
            ||| (i == 0 && pending)
            ||| (i >= 1 && !pending && lower_seq(ws1[i - 1]) == "bearer"@ && forall|k: int|
                0 <= k < i - 1 ==> lower_seq(#[trigger] ws1[k]) != "bearer"@)
        }),
    ensures
        redacted_words(ws1, pending) == redacted_words(ws2, pending),
    decreases i,
{
    let d1 = ws1.drop_first();
    let d2 = ws2.drop_first();
    if i == 0 {
        assert(d1 =~= d2) by {
            assert forall|k: int| 0 <= k < d1.len() implies d1[k] == d2[k] by {
                assert(ws1[k + 1] == ws2[k + 1]);
            }
        }
    } else {
        assert(ws1[0] == ws2[0]);
        let next = if pending {
            false
        } else {
            lower_seq(ws1[0]) == "bearer"@
        };
        assert forall|k: int| 0 <= k < d1.len() && k != i - 1 implies #[trigger] d1[k] == d2[k] by {
            assert(ws1[k + 1] == ws2[k + 1]);
        }
        assert(d1[i - 1] == ws1[i] && d2[i - 1] == ws2[i]);
        if i >= 2 && !pending && lower_seq(ws1[i - 1]) == "bearer"@ && forall|k: int|
            0 <= k < i - 1 ==> lower_seq(#[trigger] ws1[k]) != "bearer"@ {
            assert(lower_seq(ws1[0]) != "bearer"@);
            assert(d1[i - 2] == ws1[i - 1]);
            assert forall|k: int| 0 <= k < i - 2 implies lower_seq(#[trigger] d1[k]) != "bearer"@ by {
                assert(d1[k] == ws1[k + 1]);
            }
        }
        lemma_redacted_words_agree(d1, d2, next, i - 1);
    }
}

/// Two lines that differ only in the value of one credential assignment
/// (`a` + marker `m`, any ASCII case, + value, with no `=` in `a` or the
/// values) redact to the same line: the value never reaches the output,
/// and the word becomes `a + m + "[REDACTED]"`.
pub proof fn law_redaction_hides_credential_values(
    l1: Seq<char>,
    l2: Seq<char>,
    i: int,
    a: Seq<char>,
    m: Seq<char>,
    v1: Seq<char>,
    v2: Seq<char>,
)
    requires
        words(l1).len() == words(l2).len(),
        0 <= i < words(l1).len(),
        forall|k: int| 0 <= k < words(l1).len() && k != i ==> #[trigger] words(l1)[k] == words(l2)[k],
        words(l1)[i] == a + m + v1,
        words(l2)[i] == a + m + v2,
        credential_marker(lower_seq(m)),
        no_equals(a),
        no_equals(v1),
        no_equals(v2),
    ensures
        redacted_line(l1) == redacted_line(l2),
        redacted_word(a + m + v1) == a + m + "[REDACTED]"@,
{
    lemma_credential_word(a, m, v1, v2);
    reveal_strlit("bearer");
    reveal_strlit("token=");
    reveal_strlit("password=");
    reveal_strlit("secret=");
    reveal_strlit("api_key=");
    reveal_strlit("apikey=");
    let lm = lower_seq(m);
    lemma_marker_shape(lm);
    assert(m.len() > 0 && lm.last() == '=');
    let w1 = a + m + v1;
    let w2 = a + m + v2;
    let j = a.len() + m.len() - 1;
    assert(w1[j] == m[m.len() - 1] && w2[j] == m[m.len() - 1]);
    assert(lower_seq(w1)[j] == '=' && lower_seq(w2)[j] == '=');
    if lower_seq(w1) == "bearer"@ {
        assert("bearer"@[j] == '=');
    }
    if lower_seq(w2) == "bearer"@ {
        assert("bearer"@[j] == '=');
    }
    lemma_redacted_words_agree(words(l1), words(l2), false, i);
}

/// Two lines that differ only in the word after the first `Bearer` (any
/// case) redact to the same line: that word never reaches the output.
pub proof fn law_redaction_hides_bearer_tokens(l1: Seq<char>, l2: Seq<char>, i: int)
    requires
        words(l1).len() == words(l2).len(),
        1 <= i < words(l1).len(),
        forall|k: int| 0 <= k < words(l1).len() && k != i ==> #[trigger] words(l1)[k] == words(l2)[k],
        lower_seq(words(l1)[i - 1]) == "bearer"@,
        forall|k: int| 0 <= k < i - 1 ==> lower_seq(#[trigger] words(l1)[k]) != "bearer"@,
    ensures
        redacted_line(l1) == redacted_line(l2),
{
    lemma_redacted_words_agree(words(l1), words(l2), false, i);
}

fn redact_assignment_chars(token: &[char], marker: &str) -> (r: Vec<char>)
    ensures
        r@ == assignment_redacted(token@, marker@),
{
    let lower = lower_chars(token);
    let m = chars_of(marker);
    match find_chars(lower.as_slice(), m.as_slice()) {
        Some(idx) => {
            assert(occurs_at(lower@, m@, idx as int));
            assert(idx + m@.len() <= lower@.len());
            let ml = m.len();
            let ll = lower.len();
            assert(idx + ml <= ll);
            let end = idx + ml;
            let mut out = slice_to_vec(token, 0, end);
            append_str(&mut out, "[REDACTED]");
            assert(token@.subrange(0, end as int) =~= token@.take(end as int));
            out
        },
        None => {
            let eq = chars_of("=");
            match find_chars(token, eq.as_slice()) {
                Some(idx) => {
                    let mut out = slice_to_vec(token, 0, idx);
                    append_str(&mut out, "=[REDACTED]");
                    assert(token@.subrange(0, idx as int) =~= token@.take(idx as int));
                    out
                },
                None => {
                    let mut out: Vec<char> = Vec::new();
                    append_str(&mut out, "[REDACTED]");
                    assert(out@ =~= "[REDACTED]"@);
                    out
                },
            }
        },
    }
}

/// The token with everything after the credential marker hidden.
pub fn redact_assignment_like(token: &str, marker: &str) -> (r: String)
    ensures
        r@ == assignment_redacted(token@, marker@),
{
    let t = chars_of(token);
    let v = redact_assignment_chars(t.as_slice(), marker);
    string_from_chars(v.as_slice())
}

fn contains_str(hay: &[char], needle: &str) -> (r: bool)
    ensures
        r == contains(hay@, needle@),
{
    let n = chars_of(needle);
    find_chars(hay, n.as_slice()).is_some()
}

fn redact_word_chars(token: &[char]) -> (r: Vec<char>)
    ensures
        r@ == redacted_word(token@),
{
    let lower = lower_chars(token);
    if contains_str(lower.as_slice(), "token=") {
        redact_assignment_chars(token, "token=")
    } else if contains_str(lower.as_slice(), "password=") {
        redact_assignment_chars(token, "password=")
    } else if contains_str(lower.as_slice(), "secret=") {
        redact_assignment_chars(token, "secret=")
    } else if contains_str(lower.as_slice(), "api_key=") || contains_str(
        lower.as_slice(),
        "apikey=",
    ) {
        redact_assignment_chars(token, "=")
    } else {
        slice_to_vec(token, 0, token.len())
    }
}

fn redact_line_chars(line: &[char]) -> (r: Vec<char>)
    ensures
        r@ == redacted_line(line@),
{
    let ws = words_of(line);
    let ghost wv = views(ws@);
    let mut out: Vec<Vec<char>> = Vec::new();
    let mut pending = false;
    let bearer = chars_of("bearer");
    let mut i: usize = 0;
    assert(wv.skip(0) =~= wv);
    assert(views(out@) + redacted_words(wv.skip(0), false) =~= redacted_words(wv, false));
    while i < ws.len()
        invariant
            i <= ws.len(),
            wv == views(ws@),
            bearer@ == "bearer"@,
            redacted_words(wv, false) == views(out@) + redacted_words(wv.skip(i as int), pending),
        decreases ws.len() - i,
    {
        let ghost rest = wv.skip(i as int);
        assert(rest[0] == ws@[i as int]@);
        assert(rest.drop_first() =~= wv.skip(i + 1));
        let piece: Vec<char>;
        let next_pending: bool;
        if pending {
            let mut r: Vec<char> = Vec::new();
            append_str(&mut r, "[REDACTED]");
            assert(r@ =~= "[REDACTED]"@);
            piece = r;
            next_pending = false;
        } else {
            let lower = lower_chars(ws[i].as_slice());
            if eq_chars(lower.as_slice(), bearer.as_slice()) {
                let mut r: Vec<char> = Vec::new();
                append_str(&mut r, "Bearer");
                assert(r@ =~= "Bearer"@);
                piece = r;
                next_pending = true;
            } else {
                piece = redact_word_chars(ws[i].as_slice());
                next_pending = false;
            }
        }
        proof {
            lemma_views_push(out@, piece);
            assert(redacted_words(rest, pending) =~= seq![piece@] + redacted_words(
                wv.skip(i + 1),
                next_pending,
            ));
            assert(views(out@).push(piece@) + redacted_words(wv.skip(i + 1), next_pending)
                =~= views(out@) + (seq![piece@] + redacted_words(wv.skip(i + 1), next_pending)));
        }
        out.push(piece);
        pending = next_pending;
        i = i + 1;
    }
    assert(wv.skip(ws.len() as int) =~= Seq::<Seq<char>>::empty());
    assert(views(out@) + Seq::<Seq<char>>::empty() =~= views(out@));
    let sep = chars_of(" ");
    join_prefix_all(&out, sep.as_slice())
}

fn join_prefix_all(parts: &Vec<Vec<char>>, sep: &[char]) -> (r: Vec<char>)
    ensures
        r@ == join(views(parts@), sep@),
{
    let r = join_prefix(parts.as_slice(), parts.len(), sep);
    assert(views(parts@).take(parts.len() as int) =~= views(parts@));
    r
}

/// The line with credentials hidden, its words joined by single spaces.
pub fn redact_line(line: &str) -> (r: String)
    ensures
        r@ == redacted_line(line@),
{
    let cs = chars_of(line);
    let v = redact_line_chars(cs.as_slice());
    string_from_chars(v.as_slice())
}

/// Bytes that UTF-8 takes for `c`.
pub open spec fn utf8_width(c: char) -> nat {
    let u = c as u32;
    if u < 0x80 {
        1
    } else if u < 0x800 {
        2
    } else if u < 0x10000 {
        3
    } else {
        4
    }
}

/// Length in bytes of the UTF-8 encoding of `s` (what `str::len` gives).
pub open spec fn utf8_len(s: Seq<char>) -> nat
    decreases s.len(),
{
    if s.len() == 0 {
        0
    } else {
        utf8_width(s[0]) + utf8_len(s.drop_first())
    }
}

/// The longest prefix of `s` whose encoding fits in `n` bytes.
pub open spec fn byte_prefix(s: Seq<char>, n: nat) -> Seq<char>
    decreases s.len(),
{
    if s.len() == 0 {
        s
    } else if utf8_width(s[0]) <= n {
        seq![s[0]] + byte_prefix(s.drop_first(), (n - utf8_width(s[0])) as nat)
    } else {
        Seq::empty()
    }
}

/// `utf8_len` is the length of vstd's UTF-8 encoding.
pub proof fn lemma_utf8_len_is_encoded_len(s: Seq<char>)
    ensures
        utf8_len(s) == vstd::utf8::encode_utf8(s).len(),
    decreases s.len(),
{
    if s.len() > 0 {
        lemma_utf8_len_is_encoded_len(s.drop_first());
        vstd::utf8::char_is_scalar(s[0]);
    }
}

proof fn lemma_utf8_len_concat(a: Seq<char>, b: Seq<char>)
    ensures
        utf8_len(a + b) == utf8_len(a) + utf8_len(b),
    decreases a.len(),
{
    if a.len() == 0 {
        assert(a + b =~= b);
    } else {
        assert((a + b).drop_first() =~= a.drop_first() + b);
        lemma_utf8_len_concat(a.drop_first(), b);
    }
}

pub open spec fn redacted_lines(stderr: Seq<char>) -> Seq<Seq<char>> {
    clean_lines(stderr).map_values(|l: Seq<char>| redacted_line(l))
}

pub open spec fn summary_join(stderr: Seq<char>) -> Seq<char> {
    let ls = redacted_lines(stderr);
    join(ls.take(if ls.len() < 3 { ls.len() as int } else { 3 }), " | "@)
}

/// Up to the first three redacted non-empty lines of `stderr`, joined by
/// ` | `, cut to 240 bytes (with `...` appended) when longer.
pub open spec fn stderr_summary(stderr: Seq<char>) -> Option<Seq<char>> {
    if redacted_lines(stderr).len() == 0 {
        None
    } else {
        let j = summary_join(stderr);
        if utf8_len(j) > 240 {
            Some(byte_prefix(j, 240) + "..."@)
        } else {
            Some(j)
        }
    }
}

/// The cut at 240 bytes falls between two characters (`String::truncate`
/// panics otherwise).
pub open spec fn summary_defined(stderr: Seq<char>) -> bool {
    let j = summary_join(stderr);
    utf8_len(j) <= 240 || utf8_len(byte_prefix(j, 240)) == 240
}

fn char_width(c: char) -> (w: u64)
    ensures
        w == utf8_width(c),
{
    let u = c as u32;
    if u < 0x80 {
        1
    } else if u < 0x800 {
        2
    } else if u < 0x10000 {
        3
    } else {
        4
    }
}

/// `(k, b)`: `byte_prefix(j, 240)` is `j[..k]`, of `b` bytes.
fn byte_cut(j: &[char]) -> (r: (usize, u64))
    ensures
        r.0 <= j.len(),
        byte_prefix(j@, 240) == j@.take(r.0 as int),
        r.1 == utf8_len(j@.take(r.0 as int)),
        r.1 <= 240,
        (r.0 == j.len()) == (utf8_len(j@) <= 240),
{
    let mut i: usize = 0;
    let mut acc: u64 = 0;
    assert(j@.take(0) =~= Seq::<char>::empty());
    assert(j@.skip(0) =~= j@);
    assert(j@.take(0) + byte_prefix(j@.skip(0), 240) =~= byte_prefix(j@, 240));
    while i < j.len() && acc + char_width(j[i]) <= 240
        invariant
            i <= j.len(),
            acc <= 240,
            acc == utf8_len(j@.take(i as int)),
            byte_prefix(j@, 240) == j@.take(i as int) + byte_prefix(j@.skip(i as int), (240 - acc) as nat),
        decreases j.len() - i,
    {
        let w = char_width(j[i]);
        proof {
            let rest = j@.skip(i as int);
            assert(rest[0] == j@[i as int]);
            assert(rest.drop_first() =~= j@.skip(i + 1));
            assert(j@.take(i + 1) =~= j@.take(i as int) + seq![j@[i as int]]);
            lemma_utf8_len_concat(j@.take(i as int), seq![j@[i as int]]);
            assert(utf8_len(seq![j@[i as int]].drop_first()) == 0);
            assert(j@.take(i as int) + (seq![j@[i as int]] + byte_prefix(j@.skip(i + 1), (240 - acc - w) as nat))
                =~= j@.take(i + 1) + byte_prefix(j@.skip(i + 1), (240 - acc - w) as nat));
        }
        acc = acc + w;
        i = i + 1;
    }
    proof {
        assert(j@ =~= j@.take(i as int) + j@.skip(i as int));
        lemma_utf8_len_concat(j@.take(i as int), j@.skip(i as int));
        if i == j.len() {
            assert(j@.skip(i as int) =~= Seq::<char>::empty());
            assert(j@.take(i as int) + Seq::<char>::empty() =~= j@.take(i as int));
        } else {
            let rest = j@.skip(i as int);
            assert(rest[0] == j@[i as int]);
            assert(utf8_len(rest) >= utf8_width(rest[0]));
            assert(j@.take(i as int) + Seq::<char>::empty() =~= j@.take(i as int));
        }
    }
    (i, acc)
}

fn summary_parts(stderr: &str) -> (r: Vec<Vec<char>>)
    ensures
        views(r@) == redacted_lines(stderr@),
{
    let cs = chars_of(stderr);
    let lines = clean_lines_of(cs.as_slice());
    let ghost lv = views(lines@);
    let mut out: Vec<Vec<char>> = Vec::new();
    let mut i: usize = 0;
    while i < lines.len()
        invariant
            i <= lines.len(),
            lv == views(lines@),
            lv == clean_lines(stderr@),
            views(out@) == lv.take(i as int).map_values(|l: Seq<char>| redacted_line(l)),
        decreases lines.len() - i,
    {
        let r = redact_line_chars(lines[i].as_slice());
        proof {
            lemma_views_push(out@, r);
            assert(lv.take(i + 1).map_values(|l: Seq<char>| redacted_line(l)) =~= lv.take(
                i as int,
            ).map_values(|l: Seq<char>| redacted_line(l)).push(redacted_line(lv[i as int])));
        }
        out.push(r);
        i = i + 1;
    }
    assert(lv.take(lines.len() as int) =~= lv);
    out
}

fn summary_join_chars(stderr: &str) -> (r: (Vec<char>, bool))
    ensures
        r.0@ == summary_join(stderr@),
        r.1 == (redacted_lines(stderr@).len() == 0),
{
    let parts = summary_parts(stderr);
    let n = if parts.len() < 3 {
        parts.len()
    } else {
        3
    };
    let sep = chars_of(" | ");
    (join_prefix(parts.as_slice(), n, sep.as_slice()), parts.len() == 0)
}

/// Whether [`summarize_stderr`] is defined on `stderr`.
pub fn stderr_summary_is_defined(stderr: &str) -> (r: bool)
    ensures
        r == summary_defined(stderr@),
{
    let (j, _) = summary_join_chars(stderr);
    let (k, bytes) = byte_cut(j.as_slice());
    k == j.len() || bytes == 240
}

/// A short, redacted summary of a command's stderr, or `None` when it
/// printed nothing but white space.
pub fn summarize_stderr(stderr: &str) -> (r: Option<String>)
    requires
        summary_defined(stderr@),
    ensures
        opt_text(r) == stderr_summary(stderr@),
{
    let (j, empty) = summary_join_chars(stderr);
    if empty {
        return None;
    }
    let (k, _) = byte_cut(j.as_slice());
    if k == j.len() {
        return Some(string_from_chars(j.as_slice()));
    }
    let mut cut = slice_to_vec(j.as_slice(), 0, k);
    assert(j@.subrange(0, k as int) =~= j@.take(k as int));
    append_str(&mut cut, "...");
    Some(string_from_chars(cut.as_slice()))
}

} // verus!
