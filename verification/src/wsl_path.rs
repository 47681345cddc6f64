//! Mapping of host workspace paths into the path space of a WSL distro.
//!
//! The mapper is pure: it never asks `wsl.exe`, never checks that the path
//! exists inside the distro, and never guesses a fallback for a path it
//! does not support.
use vstd::prelude::*;
use crate::text::{
    append_chars, char_is_ascii_alpha, char_lower, chars_of, eq_ignore_case, eq_ignore_case_chars,
    is_ascii_alpha, join, join_chars, lemma_split_by_len, lemma_views_push, lower, nonempty, pieces_of, replace_char,
    replace_char_chars, sep_is, slice_to_vec, split_by, starts_with, starts_with_chars,
    string_from_chars, trim, trim_chars, views, trim_end, trim_start, is_ws, lemma_trim_end_prefix,
    lemma_trim_idempotent,
};

verus! {

/// Why a workspace path could not be mapped.
#[derive(Debug, Clone, PartialEq, Eq)]
pub enum WslPathMappingError {
    EmptyPath,
    RelativePath(String),
    DriveRelativePath(String),
    UnsupportedUncPath(String),
    DistroMismatch { expected: String, actual: String },
}

/// The model of [`WslPathMappingError`], its texts taken as character sequences.
pub enum PathMappingFailure {
    EmptyPath,
    RelativePath(Seq<char>),
    DriveRelativePath(Seq<char>),
    UnsupportedUncPath(Seq<char>),
    DistroMismatch { expected: Seq<char>, actual: Seq<char> },
}

impl View for WslPathMappingError {
    type V = PathMappingFailure;

    open spec fn view(&self) -> PathMappingFailure {
        match self {
            WslPathMappingError::EmptyPath => PathMappingFailure::EmptyPath,
            WslPathMappingError::RelativePath(p) => PathMappingFailure::RelativePath(p@),
            WslPathMappingError::DriveRelativePath(p) => PathMappingFailure::DriveRelativePath(p@),
            WslPathMappingError::UnsupportedUncPath(p) => PathMappingFailure::UnsupportedUncPath(
                p@,
            ),
            WslPathMappingError::DistroMismatch { expected, actual } =>
                PathMappingFailure::DistroMismatch { expected: expected@, actual: actual@ },
        }
    }
}

/// The message that the error's `Display` form writes.
pub open spec fn failure_message(e: PathMappingFailure) -> Seq<char> {
    match e {
        PathMappingFailure::EmptyPath => "workspace path is empty"@,
        PathMappingFailure::RelativePath(p) => "workspace path must be absolute: "@ + p,
        PathMappingFailure::DriveRelativePath(p) =>
            "Windows drive-relative paths are not supported: "@ + p,
        PathMappingFailure::UnsupportedUncPath(p) => "UNC workspace path is not a WSL path: "@ + p,
        PathMappingFailure::DistroMismatch { expected, actual } => "WSL path targets distro '"@
            + actual + "', expected '"@ + expected + "'"@,
    }
}

impl WslPathMappingError {
    /// The human-readable message of this error.
    pub fn to_string(&self) -> (r: String)
        ensures
            r@ == failure_message(self@),
    {
        match self {
            WslPathMappingError::EmptyPath => String::from_str("workspace path is empty"),
            WslPathMappingError::RelativePath(p) => {
                let mut r = String::from_str("workspace path must be absolute: ");
                r.append(p.as_str());
                r
            },
            WslPathMappingError::DriveRelativePath(p) => {
                let mut r = String::from_str("Windows drive-relative paths are not supported: ");
                r.append(p.as_str());
                r
            },
            WslPathMappingError::UnsupportedUncPath(p) => {
                let mut r = String::from_str("UNC workspace path is not a WSL path: ");
                r.append(p.as_str());
                r
            },
            WslPathMappingError::DistroMismatch { expected, actual } => {
                let mut r = String::from_str("WSL path targets distro '");
                r.append(actual.as_str());
                r.append("', expected '");
                r.append(expected.as_str());
                r.append("'");
                r
            },
        }
    }
}

// ---------------------------------------------------------------------------
// The mapping, as spec functions
// ---------------------------------------------------------------------------

/// `s` with every run of `/` reduced to one `/`.
pub open spec fn collapse(s: Seq<char>) -> Seq<char>
    decreases s.len(),
{
    if s.len() == 0 {
        s
    } else if s.last() == '/' && s.len() >= 2 && s[s.len() - 2] == '/' {
        collapse(s.drop_last())
    } else {
        collapse(s.drop_last()).push(s.last())
    }
}

/// `X:\...` or `X:/...` with an ASCII drive letter.
pub open spec fn drive_absolute(t: Seq<char>) -> bool {
    t.len() >= 3 && is_ascii_alpha(t[0]) && t[1] == ':' && (t[2] == '\\' || t[2] == '/')
}

/// `X:` followed by anything but a separator.
pub open spec fn drive_relative(t: Seq<char>) -> bool {
    t.len() >= 2 && is_ascii_alpha(t[0]) && t[1] == ':' && !drive_absolute(t)
}

/// Starts with two backslashes or two slashes.
pub open spec fn unc(t: Seq<char>) -> bool {
    starts_with(t, seq!['\\', '\\']) || starts_with(t, seq!['/', '/'])
}

pub open spec fn wsl_unc_host(h: Seq<char>) -> bool {
    eq_ignore_case(h, seq!['w', 's', 'l', '$']) || eq_ignore_case(
        h,
        seq!['w', 's', 'l', '.', 'l', 'o', 'c', 'a', 'l', 'h', 'o', 's', 't'],
    )
}

/// `C:\a\b` becomes `/mnt/c/a/b`.
pub open spec fn drive_mount(t: Seq<char>) -> Seq<char> {
    seq!['/', 'm', 'n', 't', '/', lower(t[0])] + collapse(replace_char(t.skip(2), '\\', '/'))
}

/// The non-empty components of a UNC path, `\` read as `/`.
pub open spec fn unc_parts(t: Seq<char>) -> Seq<Seq<char>> {
    nonempty(split_by(replace_char(t, '\\', '/'), sep_is('/')))
}

/// `\\wsl$\<distro>\rest` becomes `/rest`, for the expected distro only.
pub open spec fn unc_mount(t: Seq<char>, distro: Seq<char>) -> Result<Seq<char>, PathMappingFailure> {
    let parts = unc_parts(t);
    if parts.len() < 2 || !wsl_unc_host(parts[0]) {
        Err(PathMappingFailure::UnsupportedUncPath(t))
    } else if !eq_ignore_case(parts[1], distro) {
        Err(PathMappingFailure::DistroMismatch { expected: distro, actual: parts[1] })
    } else if parts.len() == 2 {
        Ok(seq!['/'])
    } else {
        Ok(seq!['/'] + join(parts.skip(2), seq!['/']))
    }
}

/// Where the workspace `path` of the host lies inside `distro`.
pub open spec fn workspace_path_for_wsl(path: Seq<char>, distro: Seq<char>) -> Result<
    Seq<char>,
    PathMappingFailure,
> {
    let t = trim(path);
    if t.len() == 0 {
        Err(PathMappingFailure::EmptyPath)
    } else if t[0] == '/' {
        Ok(collapse(t))
    } else if unc(t) {
        unc_mount(t, distro)
    } else if drive_absolute(t) {
        Ok(drive_mount(t))
    } else if drive_relative(t) {
        Err(PathMappingFailure::DriveRelativePath(t))
    } else {
        Err(PathMappingFailure::RelativePath(t))
    }
}

pub open spec fn result_view(r: Result<String, WslPathMappingError>) -> Result<
    Seq<char>,
    PathMappingFailure,
> {
    match r {
        Ok(s) => Ok(s@),
        Err(e) => Err(e@),
    }
}

// ---------------------------------------------------------------------------
// The mapping
// ---------------------------------------------------------------------------

/// Map a host-provided workspace path to the path a WSL distro should use.
///
/// This is intentionally a pure mapper. It does not call `wsl.exe`, does not
/// verify that the path exists inside the distro, and does not guess fallback
/// locations for unsupported paths.
pub fn map_workspace_path_for_wsl(path: &str, distro: &str) -> (r: Result<String, WslPathMappingError>)
    ensures
        result_view(r) == workspace_path_for_wsl(path@, distro@),
{
    let all = chars_of(path);
    let t = trim_chars(all.as_slice());
    if t.len() == 0 {
        return Err(WslPathMappingError::EmptyPath);
    }
    if t[0] == '/' {
        return Ok(normalize_posix_path(t.as_slice()));
    }
    if is_unc_path(t.as_slice()) {
        return map_unc_wsl_path(t.as_slice(), distro);
    }
    if is_windows_drive_absolute(t.as_slice()) {
        return Ok(map_drive_path(t.as_slice()));
    }
    if is_windows_drive_relative(t.as_slice()) {
        return Err(WslPathMappingError::DriveRelativePath(string_from_chars(t.as_slice())));
    }
    Err(WslPathMappingError::RelativePath(string_from_chars(t.as_slice())))
}

pub fn is_windows_drive_absolute(path: &[char]) -> (r: bool)
    ensures
        r == drive_absolute(path@),
{
    path.len() >= 3 && char_is_ascii_alpha(path[0]) && path[1] == ':' && (path[2] == '\\'
        || path[2] == '/')
}

pub fn is_windows_drive_relative(path: &[char]) -> (r: bool)
    ensures
        r == drive_relative(path@),
{
    path.len() >= 2 && char_is_ascii_alpha(path[0]) && path[1] == ':'
        && !is_windows_drive_absolute(path)
}

pub fn is_unc_path(path: &[char]) -> (r: bool)
    ensures
        r == unc(path@),
{
    let bs = ['\\', '\\'];
    let sl = ['/', '/'];
    assert(bs@ =~= seq!['\\', '\\']);
    assert(sl@ =~= seq!['/', '/']);
    starts_with_chars(path, &bs) || starts_with_chars(path, &sl)
}

pub fn map_drive_path(path: &[char]) -> (r: String)
    requires
        drive_absolute(path@),
    ensures
        r@ == drive_mount(path@),
{
    let mut out: Vec<char> = Vec::new();
    out.push('/');
    out.push('m');
    out.push('n');
    out.push('t');
    out.push('/');
    out.push(char_lower(path[0]));
    let rest = slice_to_vec(path, 2, path.len());
    assert(rest@ =~= path@.skip(2));
    let replaced = replace_char_chars(rest.as_slice(), '\\', '/');
    let collapsed = collapse_slashes(replaced.as_slice());
    append_chars(&mut out, collapsed.as_slice());
    assert(out@ =~= drive_mount(path@));
    string_from_chars(out.as_slice())
}

pub fn map_unc_wsl_path(path: &[char], expected_distro: &str) -> (r: Result<
    String,
    WslPathMappingError,
>)
    ensures
        result_view(r) == unc_mount(path@, expected_distro@),
{
    let expected_chars = chars_of(expected_distro);
    let expected = expected_chars.as_slice();
    let normalized = replace_char_chars(path, '\\', '/');
    let parts = pieces_of(normalized.as_slice(), '/');
    if parts.len() < 2 || !is_wsl_unc_host(parts[0].as_slice()) {
        return Err(WslPathMappingError::UnsupportedUncPath(string_from_chars(path)));
    }
    let actual = &parts[1];
    if !eq_ignore_case_chars(actual.as_slice(), expected) {
        return Err(
            WslPathMappingError::DistroMismatch {
                expected: expected_distro.to_owned(),
                actual: string_from_chars(actual.as_slice()),
            },
        );
    }
    if parts.len() == 2 {
        let mut root: Vec<char> = Vec::new();
        root.push('/');
        assert(root@ =~= seq!['/']);
        return Ok(string_from_chars(root.as_slice()));
    }
    let mut tail: Vec<Vec<char>> = Vec::new();
    let mut i: usize = 2;
    while i < parts.len()
        invariant
            2 <= i <= parts.len(),
            views(tail@) == views(parts@).subrange(2, i as int),
        decreases parts.len() - i,
    {
        let piece = slice_to_vec(parts[i].as_slice(), 0, parts[i].len());
        assert(piece@ =~= parts@[i as int]@);
        proof {
            lemma_views_push(tail@, piece);
            assert(views(parts@).subrange(2, i + 1) =~= views(parts@).subrange(2, i as int).push(
                parts@[i as int]@,
            ));
        }
        tail.push(piece);
        i = i + 1;
    }
    assert(views(parts@).subrange(2, parts.len() as int) =~= views(parts@).skip(2));
    let sep = ['/'];
    assert(sep@ =~= seq!['/']);
    let joined = join_chars(tail.as_slice(), &sep);
    let mut out: Vec<char> = Vec::new();
    out.push('/');
    append_chars(&mut out, joined.as_slice());
    assert(out@ =~= seq!['/'] + join(views(parts@).skip(2), seq!['/']));
    Ok(string_from_chars(out.as_slice()))
}

pub fn is_wsl_unc_host(host: &[char]) -> (r: bool)
    ensures
        r == wsl_unc_host(host@),
{
    let a = ['w', 's', 'l', '$'];
    let b = ['w', 's', 'l', '.', 'l', 'o', 'c', 'a', 'l', 'h', 'o', 's', 't'];
    assert(a@ =~= seq!['w', 's', 'l', '$']);
    assert(b@ =~= seq!['w', 's', 'l', '.', 'l', 'o', 'c', 'a', 'l', 'h', 'o', 's', 't']);
    eq_ignore_case_chars(host, &a) || eq_ignore_case_chars(host, &b)
}

pub fn normalize_posix_path(path: &[char]) -> (r: String)
    ensures
        r@ == collapse(path@),
{
    let v = collapse_slashes(path);
    string_from_chars(v.as_slice())
}

pub fn collapse_slashes(path: &[char]) -> (out: Vec<char>)
    ensures
        out@ == collapse(path@),
{
    let mut out: Vec<char> = Vec::new();
    let mut last_was_slash = false;
    let mut i: usize = 0;
    while i < path.len()
        invariant
            i <= path.len(),
            out@ == collapse(path@.take(i as int)),
            last_was_slash == (i > 0 && path@[i - 1] == '/'),
        decreases path.len() - i,
    {
        let ch = path[i];
        let ghost pre = path@.take(i as int);
        let ghost next = path@.take(i + 1);
        assert(next.drop_last() =~= pre);
        assert(next.last() == ch);
        if i > 0 {
            assert(next[next.len() - 2] == path@[i - 1]);
        }
        if ch == '/' {
            if !last_was_slash {
                out.push(ch);
            }
            last_was_slash = true;
        } else {
            out.push(ch);
            last_was_slash = false;
        }
        i = i + 1;
    }
    assert(path@.take(path.len() as int) =~= path@);
    out
}


// ---------------------------------------------------------------------------
// Laws
// ---------------------------------------------------------------------------

pub open spec fn slash_pair(s: Seq<char>, i: int) -> bool {
    s[i] == '/' && s[i + 1] == '/'
}

/// No two consecutive `/` in `s`.
pub open spec fn no_double_slash(s: Seq<char>) -> bool {
    forall|i: int| 0 <= i < s.len() - 1 ==> !#[trigger] slash_pair(s, i)
}

proof fn lemma_collapse_ends(s: Seq<char>)
    requires
        s.len() > 0,
    ensures
        collapse(s).len() > 0,
        collapse(s)[0] == s[0],
        collapse(s).last() == s.last(),
    decreases s.len(),
{
    if s.len() == 1 {
        assert(s.drop_last().len() == 0);
        assert(collapse(s.drop_last()) =~= Seq::<char>::empty());
        assert(collapse(s) =~= seq![s[0]]);
    } else {
        let d = s.drop_last();
        lemma_collapse_ends(d);
        assert(d[0] == s[0]);
        if s.last() == '/' && s[s.len() - 2] == '/' {
            assert(d.last() == s[s.len() - 2]);
        } else {
            assert(collapse(s) == collapse(d).push(s.last()));
        }
    }
}

proof fn lemma_collapse_no_double(s: Seq<char>)
    ensures
        no_double_slash(collapse(s)),
    decreases s.len(),
{
    if s.len() > 0 {
        let d = s.drop_last();
        lemma_collapse_no_double(d);
        if !(s.last() == '/' && s.len() >= 2 && s[s.len() - 2] == '/') {
            let c = collapse(d);
            let r = c.push(s.last());
            assert(collapse(s) == r);
            if d.len() > 0 {
                lemma_collapse_ends(d);
            }
            assert forall|i: int| 0 <= i < r.len() - 1 implies !#[trigger] slash_pair(r, i) by {
                if i < c.len() - 1 {
                    assert(!slash_pair(c, i));
                } else {
                    assert(i == c.len() - 1);
                    assert(c.last() == d.last());
                    assert(d.last() == s[s.len() - 2]);
                }
            }
        }
    }
}

proof fn lemma_collapse_identity(s: Seq<char>)
    requires
        no_double_slash(s),
    ensures
        collapse(s) == s,
    decreases s.len(),
{
    if s.len() > 0 {
        let d = s.drop_last();
        assert forall|i: int| 0 <= i < d.len() - 1 implies !#[trigger] slash_pair(d, i) by {
            assert(!slash_pair(s, i));
        }
        lemma_collapse_identity(d);
        if s.len() >= 2 {
            assert(!slash_pair(s, s.len() - 2));
        }
        assert(collapse(s) =~= s);
    }
}

proof fn lemma_concat_no_double(a: Seq<char>, b: Seq<char>)
    requires
        no_double_slash(a),
        no_double_slash(b),
        a.len() == 0 || b.len() == 0 || !(a.last() == '/' && b[0] == '/'),
    ensures
        no_double_slash(a + b),
{
    let r = a + b;
    assert forall|i: int| 0 <= i < r.len() - 1 implies !#[trigger] slash_pair(r, i) by {
        if i < a.len() - 1 {
            assert(!slash_pair(a, i));
        } else if i >= a.len() {
            assert(!slash_pair(b, i - a.len()));
        }
    }
}

proof fn lemma_split_by_excludes(s: Seq<char>, f: spec_fn(char) -> bool)
    ensures
        forall|i: int, k: int|
            0 <= i < split_by(s, f).len() && 0 <= k < split_by(s, f)[i].len() ==> !f(
                #[trigger] split_by(s, f)[i][k],
            ),
    decreases s.len(),
{
    if s.len() > 0 {
        lemma_split_by_excludes(s.drop_last(), f);
        lemma_split_by_len(s.drop_last(), f);
        let p = split_by(s.drop_last(), f);
        if !f(s.last()) {
            let q = split_by(s, f);
            assert forall|i: int, k: int| 0 <= i < q.len() && 0 <= k < q[i].len() implies !f(
                #[trigger] q[i][k],
            ) by {
                if i < p.len() - 1 {
                    assert(q[i] == p[i]);
                } else {
                    assert(q[i] == p.last().push(s.last()));
                    if k < p.last().len() {
                        assert(q[i][k] == p[p.len() - 1][k]);
                    }
                }
            }
        } else {
            let q = split_by(s, f);
            assert forall|i: int, k: int| 0 <= i < q.len() && 0 <= k < q[i].len() implies !f(
                #[trigger] q[i][k],
            ) by {
                assert(q[i] == p[i]);
            }
        }
    }
}

proof fn lemma_nonempty_from(parts: Seq<Seq<char>>, f: spec_fn(char) -> bool)
    requires
        forall|i: int, k: int|
            0 <= i < parts.len() && 0 <= k < parts[i].len() ==> !f(#[trigger] parts[i][k]),
    ensures
        forall|i: int| 0 <= i < nonempty(parts).len() ==> #[trigger] nonempty(parts)[i].len() > 0,
        forall|i: int, k: int|
            0 <= i < nonempty(parts).len() && 0 <= k < nonempty(parts)[i].len() ==> !f(
                #[trigger] nonempty(parts)[i][k],
            ),
    decreases parts.len(),
{
    if parts.len() > 0 {
        let d = parts.drop_last();
        assert forall|i: int, k: int| 0 <= i < d.len() && 0 <= k < d[i].len() implies !f(
            #[trigger] d[i][k],
        ) by {
            assert(d[i] == parts[i]);
        }
        lemma_nonempty_from(d, f);
        let n = nonempty(parts);
        if parts.last().len() > 0 {
            assert forall|i: int, k: int| 0 <= i < n.len() && 0 <= k < n[i].len() implies !f(
                #[trigger] n[i][k],
            ) by {
                if i < n.len() - 1 {
                    assert(n[i] == nonempty(d)[i]);
                } else {
                    assert(n[i] == parts[parts.len() - 1]);
                }
            }
        }
    }
}

proof fn lemma_join_no_double(parts: Seq<Seq<char>>)
    requires
        forall|i: int| 0 <= i < parts.len() ==> #[trigger] parts[i].len() > 0,
        forall|i: int, k: int|
            0 <= i < parts.len() && 0 <= k < parts[i].len() ==> #[trigger] parts[i][k] != '/',
    ensures
        no_double_slash(join(parts, seq!['/'])),
        parts.len() > 0 ==> join(parts, seq!['/']).len() > 0 && join(parts, seq!['/'])[0] != '/'
            && join(parts, seq!['/']).last() != '/',
    decreases parts.len(),
{
    let j = join(parts, seq!['/']);
    if parts.len() == 1 {
        assert(j == parts[0]);
        assert(j[0] == parts[0][0]);
        assert(j.last() == parts[0][parts[0].len() - 1]);
        assert forall|i: int| 0 <= i < j.len() - 1 implies !#[trigger] slash_pair(j, i) by {
            assert(j[i] == parts[0][i]);
        }
    } else if parts.len() > 1 {
        let d = parts.drop_last();
        assert forall|i: int, k: int| 0 <= i < d.len() && 0 <= k < d[i].len() implies #[trigger] d[i][k]
            != '/' by {
            assert(d[i] == parts[i]);
        }
        assert forall|i: int| 0 <= i < d.len() implies #[trigger] d[i].len() > 0 by {
            assert(d[i] == parts[i]);
        }
        lemma_join_no_double(d);
        let jd = join(d, seq!['/']);
        let l = parts.last();
        assert(l.len() > 0);
        assert(l == parts[parts.len() - 1]);
        assert forall|i: int| 0 <= i < l.len() - 1 implies !#[trigger] slash_pair(l, i) by {
            assert(l[i] == parts[parts.len() - 1][i]);
        }
        assert(l[0] == parts[parts.len() - 1][0]);
        assert(l.last() == parts[parts.len() - 1][l.len() - 1]);
        lemma_concat_no_double(jd, seq!['/']);
        lemma_concat_no_double(jd + seq!['/'], l);
        assert(j == jd + seq!['/'] + l);
        assert(j[0] == jd[0]);
        assert(j.last() == l.last());
    }
}

/// Every mapped path is absolute and holds no empty component (`//`).
pub proof fn law_mapped_path_is_absolute(path: Seq<char>, distro: Seq<char>)
    ensures
        workspace_path_for_wsl(path, distro) matches Ok(p) ==> p.len() > 0 && p[0] == '/'
            && no_double_slash(p),
{
    let t = trim(path);
    if t.len() == 0 {
    } else if t[0] == '/' {
        lemma_collapse_ends(t);
        lemma_collapse_no_double(t);
    } else if unc(t) {
        let parts = unc_parts(t);
        let n = replace_char(t, '\\', '/');
        lemma_split_by_excludes(n, sep_is('/'));
        lemma_nonempty_from(split_by(n, sep_is('/')), sep_is('/'));
        if parts.len() > 2 && wsl_unc_host(parts[0]) && eq_ignore_case(parts[1], distro) {
            let rest = parts.skip(2);
            assert forall|i: int| 0 <= i < rest.len() implies #[trigger] rest[i].len() > 0 by {
                assert(rest[i] == parts[i + 2]);
            }
            assert forall|i: int, k: int| 0 <= i < rest.len() && 0 <= k < rest[i].len() implies #[trigger] rest[i][k]
                != '/' by {
                assert(rest[i] == parts[i + 2]);
                assert(!(sep_is('/'))(parts[i + 2][k]));
            }
            lemma_join_no_double(rest);
            let j = join(rest, seq!['/']);
            lemma_concat_no_double(seq!['/'], j);
        } else if parts.len() == 2 && wsl_unc_host(parts[0]) && eq_ignore_case(parts[1], distro) {
            let one = seq!['/'];
            assert forall|i: int| 0 <= i < one.len() - 1 implies !#[trigger] slash_pair(one, i) by {
            }
        }
    } else if drive_absolute(t) {
        let r = replace_char(t.skip(2), '\\', '/');
        assert(r[0] == '/');
        lemma_collapse_ends(r);
        lemma_collapse_no_double(r);
        let head = seq!['/', 'm', 'n', 't', '/', lower(t[0])];
        assert(lower(t[0]) != '/');
        assert forall|i: int| 0 <= i < head.len() - 1 implies !#[trigger] slash_pair(head, i) by {
        }
        lemma_concat_no_double(head, collapse(r));
    }
}

/// Mapping a mapped path again gives it back with its trailing white space
/// trimmed, whichever distro is named; a path mapped from a POSIX or a drive
/// path has none, so mapping it again gives it back unchanged.
pub proof fn law_remapping_is_identity(path: Seq<char>, distro: Seq<char>, other: Seq<char>)
    requires
        workspace_path_for_wsl(path, distro) is Ok,
    ensures
        workspace_path_for_wsl(workspace_path_for_wsl(path, distro)->Ok_0, other) == Ok::<
            Seq<char>,
            PathMappingFailure,
        >(trim_end(workspace_path_for_wsl(path, distro)->Ok_0)),
        !unc(trim(path)) ==> trim_end(workspace_path_for_wsl(path, distro)->Ok_0)
            == workspace_path_for_wsl(path, distro)->Ok_0,
{
    let q = workspace_path_for_wsl(path, distro)->Ok_0;
    law_mapped_path_is_absolute(path, distro);
    assert(!is_ws(q[0]));
    assert(trim_start(q) == q);
    let j = lemma_trim_end_prefix(q);
    let t = trim_end(q);
    assert(t[0] == '/');
    assert forall|i: int| 0 <= i < t.len() - 1 implies !#[trigger] slash_pair(t, i) by {
        assert(!slash_pair(q, i));
    }
    lemma_collapse_identity(t);
    let tp = trim(path);
    lemma_trim_idempotent(path);
    if !unc(tp) {
        if tp[0] == '/' {
            lemma_collapse_ends(tp);
        } else {
            let r = replace_char(tp.skip(2), '\\', '/');
            assert(r.last() == if tp.last() == '\\' { '/' } else { tp.last() });
            lemma_collapse_ends(r);
            assert(q.last() == collapse(r).last());
        }
        assert(!is_ws(q.last()));
        assert(trim_end(q) == q);
    }
}

/// A path maps exactly as its trimmed form does.
pub proof fn law_path_maps_like_its_trimmed_form(path: Seq<char>, distro: Seq<char>)
    ensures
        workspace_path_for_wsl(path, distro) == workspace_path_for_wsl(trim(path), distro),
{
    lemma_trim_idempotent(path);
}

/// The distro is compared without regard to ASCII case: two distro names
/// that differ only in case map every path alike.
pub proof fn law_distro_is_case_insensitive(path: Seq<char>, d1: Seq<char>, d2: Seq<char>)
    requires
        eq_ignore_case(d1, d2),
    ensures
        workspace_path_for_wsl(path, d1) is Ok <==> workspace_path_for_wsl(path, d2) is Ok,
        workspace_path_for_wsl(path, d1) is Ok ==> workspace_path_for_wsl(path, d1)
            == workspace_path_for_wsl(path, d2),
{
}

/// Only WSL UNC paths depend on the distro at all.
pub proof fn law_non_unc_paths_ignore_distro(path: Seq<char>, d1: Seq<char>, d2: Seq<char>)
    requires
        !unc(trim(path)) || (trim(path).len() > 0 && trim(path)[0] == '/'),
    ensures
        workspace_path_for_wsl(path, d1) == workspace_path_for_wsl(path, d2),
{
}

/// Any path `X:\...` or `X:/...` with an ASCII letter `X` (either case) is
/// mapped under `/mnt/x`, `x` being that letter in lower case; the case of
/// the drive letter does not matter.
pub proof fn law_drive_paths_map_under_mnt(x: char, sep: char, rest: Seq<char>, distro: Seq<char>)
    requires
        ('a' <= x <= 'z') || ('A' <= x <= 'Z'),
        sep == '\\' || sep == '/',
    ensures
        ({
            let path = seq![x, ':', sep] + rest;
            let low = if 'A' <= x <= 'Z' {
                ((x as u32) + 32) as char
            } else {
                x
            };
            &&& workspace_path_for_wsl(path, distro) is Ok
            &&& workspace_path_for_wsl(path, distro)->Ok_0 == seq!['/', 'm', 'n', 't', '/', low]
                + collapse(replace_char(trim(path).skip(2), '\\', '/'))
        }),
        ({
            let other = if 'A' <= x <= 'Z' {
                ((x as u32) + 32) as char
            } else {
                ((x as u32) - 32) as char
            };
            workspace_path_for_wsl(seq![x, ':', sep] + rest, distro) == workspace_path_for_wsl(
                seq![other, ':', sep] + rest,
                distro,
            )
        }),
{
    let path = seq![x, ':', sep] + rest;
    let other = if 'A' <= x <= 'Z' {
        ((x as u32) + 32) as char
    } else {
        ((x as u32) - 32) as char
    };
    let path2 = seq![other, ':', sep] + rest;
    let j1 = lemma_drive_trim(path);
    let j2 = lemma_drive_trim(path2);
    assert forall|k: int| 1 <= k < path.len() implies path[k] == path2[k] by {}
    if j1 < j2 {
        assert(path2[j2 - 1] == path[j2 - 1]);
    }
    if j2 < j1 {
        assert(path2[j1 - 1] == path[j1 - 1]);
    }
    assert(j1 == j2);
    let t = trim(path);
    let t2 = trim(path2);
    assert(t.skip(2) =~= t2.skip(2));
    assert(lower(t[0]) == lower(t2[0]));
}

/// A path starting with an ASCII letter, `:` and a separator keeps those
/// three characters after trimming.
proof fn lemma_drive_trim(path: Seq<char>) -> (j: int)
    requires
        path.len() >= 3,
        ('a' <= path[0] <= 'z') || ('A' <= path[0] <= 'Z'),
        path[1] == ':',
        path[2] == '\\' || path[2] == '/',
    ensures
        3 <= j <= path.len(),
        trim(path) == path.subrange(0, j),
        !is_ws(path[j - 1]),
        forall|k: int| j <= k < path.len() ==> is_ws(#[trigger] path[k]),
        trim(path).len() >= 3,
        drive_absolute(trim(path)),
        !unc(trim(path)),
        trim(path)[0] != '/',
{
    assert(!is_ws(path[0]));
    assert(trim_start(path) == path);
    let j = lemma_trim_end_prefix(path);
    if j <= 2 {
        assert(is_ws(path[2]));
    }
    let t = trim(path);
    assert(t[0] == path[0] && t[1] == path[1] && t[2] == path[2]);
    j
}

} // verus!
