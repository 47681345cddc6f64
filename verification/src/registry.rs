//! The in-memory agent catalog: native rows loaded from the database,
//! rows derived for CLIs found inside WSL distros, the availability rules,
//! and the lookups that the factory and the routes use.
use vstd::prelude::*;
use crate::agent::{
    agent_views, AgentMetadata, AgentRuntimeMetadata, AgentSource, AgentType, AgentV, RuntimeV,
    SourceInfoV,
};
use crate::text::{
    append_chars, append_str, char_is_ascii_alnum, char_lower, chars_of, eq_chars, is_ascii_alnum,
    lower, string_from_chars,
};
use crate::wsl::{
    copy_opt_text, copy_text, opt_text, CliProbeV, DistroProbeV, DistroV, ReportV, WslCliProbeResult,
    WslDistro, WslProbeReport,
};

verus! {

broadcast use vstd::seq_lib::group_to_multiset_ensures;

// ---------------------------------------------------------------------------
// Visibility and order
// ---------------------------------------------------------------------------

/// A row is shown to callers when the user has it enabled and its spawn
/// command was found.
pub open spec fn visible(m: AgentV) -> bool {
    m.enabled && m.available
}

pub fn is_visible(meta: &AgentMetadata) -> (r: bool)
    ensures
        r == visible(meta@),
{
    meta.enabled && meta.available
}

/// `a` sorts strictly before `b` as text (code point by code point, which
/// is also byte order for UTF-8).
pub open spec fn text_lt(a: Seq<char>, b: Seq<char>) -> bool
    decreases a.len(),
{
    if b.len() == 0 {
        false
    } else if a.len() == 0 {
        true
    } else if a[0] != b[0] {
        (a[0] as u32) < (b[0] as u32)
    } else {
        text_lt(a.drop_first(), b.drop_first())
    }
}

/// `a` sorts strictly before `b`: by `sort_order`, then by name.
pub open spec fn row_before(a: AgentV, b: AgentV) -> bool {
    a.sort_order < b.sort_order || (a.sort_order == b.sort_order && text_lt(a.name, b.name))
}

pub open spec fn sorted_rows(s: Seq<AgentV>) -> bool {
    forall|i: int, j: int| 0 <= i < j < s.len() ==> !row_before(#[trigger] s[j], #[trigger] s[i])
}

proof fn lemma_text_lt_asym(a: Seq<char>, b: Seq<char>)
    ensures
        !(text_lt(a, b) && text_lt(b, a)),
    decreases a.len(),
{
    if a.len() > 0 && b.len() > 0 && a[0] == b[0] {
        lemma_text_lt_asym(a.drop_first(), b.drop_first());
    }
}

pub proof fn lemma_text_lt_irreflexive(a: Seq<char>)
    ensures
        !text_lt(a, a),
{
    lemma_text_lt_asym(a, a);
}

proof fn lemma_text_lt_trans(a: Seq<char>, b: Seq<char>, c: Seq<char>)
    requires
        text_lt(a, b),
        text_lt(b, c),
    ensures
        text_lt(a, c),
    decreases a.len(),
{
    if a.len() > 0 && b.len() > 0 && c.len() > 0 && a[0] == b[0] && b[0] == c[0] {
        lemma_text_lt_trans(a.drop_first(), b.drop_first(), c.drop_first());
    }
}

proof fn lemma_row_before_order(a: AgentV, b: AgentV, c: AgentV)
    ensures
        !(row_before(a, b) && row_before(b, a)),
        row_before(a, b) && row_before(b, c) ==> row_before(a, c),
{
    lemma_text_lt_asym(a.name, b.name);
    if row_before(a, b) && row_before(b, c) && a.sort_order == b.sort_order && b.sort_order
        == c.sort_order {
        lemma_text_lt_trans(a.name, b.name, c.name);
    }
}

pub fn text_before(a: &str, b: &str) -> (r: bool)
    ensures
        r == text_lt(a@, b@),
{
    let x = chars_of(a);
    let y = chars_of(b);
    let mut i: usize = 0;
    assert(x@.skip(0) =~= x@);
    assert(y@.skip(0) =~= y@);
    while i < x.len() && i < y.len() && x[i] == y[i]
        invariant
            i <= x.len(),
            i <= y.len(),
            text_lt(a@, b@) == text_lt(x@.skip(i as int), y@.skip(i as int)),
            x@ == a@,
            y@ == b@,
        decreases x.len() - i,
    {
        assert(x@.skip(i as int).drop_first() =~= x@.skip(i + 1));
        assert(y@.skip(i as int).drop_first() =~= y@.skip(i + 1));
        i = i + 1;
    }
    if i == y.len() {
        return false;
    }
    if i == x.len() {
        return true;
    }
    assert(x@.skip(i as int)[0] == x@[i as int]);
    assert(y@.skip(i as int)[0] == y@[i as int]);
    (x[i] as u32) < (y[i] as u32)
}

pub fn row_sorts_before(a: &AgentMetadata, b: &AgentMetadata) -> (r: bool)
    ensures
        r == row_before(a@, b@),
{
    a.sort_order < b.sort_order || (a.sort_order == b.sort_order && text_before(
        a.name.as_str(),
        b.name.as_str(),
    ))
}

proof fn lemma_insert_multiset(s: Seq<AgentV>, j: int, x: AgentV)
    requires
        0 <= j <= s.len(),
    ensures
        s.insert(j, x).to_multiset() =~= s.to_multiset().insert(x),
{
    let t = s.insert(j, x);
    assert(t.remove(j) =~= s);
    assert(t[j] == x);
    assert(t.to_multiset().count(x) > 0);
}

/// The rows ordered by `sort_order`, then by name; rows that tie keep
/// their order.
pub fn sort_agent_rows(rows: &mut Vec<AgentMetadata>)
    ensures
        sorted_rows(agent_views(final(rows)@)),
        agent_views(final(rows)@).to_multiset() == agent_views(old(rows)@).to_multiset(),
{
    let ghost input = agent_views(rows@);
    let mut out: Vec<AgentMetadata> = Vec::new();
    let mut i: usize = 0;
    assert(input.take(0) =~= Seq::<AgentV>::empty());
    assert(agent_views(out@) =~= Seq::<AgentV>::empty());
    while i < rows.len()
        invariant
            input == agent_views(rows@),
            i <= rows.len(),
            sorted_rows(agent_views(out@)),
            agent_views(out@).to_multiset() == input.take(i as int).to_multiset(),
        decreases rows.len() - i,
    {
        let x = rows[i].duplicate();
        let ghost ov = agent_views(out@);
        let mut j: usize = 0;
        while j < out.len() && !row_sorts_before(&x, &out[j])
            invariant
                ov == agent_views(out@),
                j <= out.len(),
                forall|k: int| 0 <= k < j ==> !row_before(x@, #[trigger] ov[k]),
            decreases out.len() - j,
        {
            j = j + 1;
        }
        proof {
            let t = ov.insert(j as int, x@);
            assert forall|a: int, b: int| 0 <= a < b < t.len() implies !row_before(
                #[trigger] t[b],
                #[trigger] t[a],
            ) by {
                if b < j {
                    assert(t[a] == ov[a] && t[b] == ov[b]);
                } else if b == j {
                    assert(t[a] == ov[a]);
                    assert(t[b] == x@);
                } else if a == j {
                    assert(t[a] == x@);
                    assert(t[b] == ov[b - 1]);
                    assert(row_before(x@, ov[j as int]));
                    if b - 1 > j {
                        assert(!row_before(ov[b - 1], ov[j as int]));
                    }
                    lemma_row_before_order(ov[b - 1], x@, ov[j as int]);
                } else if a < j {
                    assert(t[a] == ov[a]);
                    assert(t[b] == ov[b - 1]);
                } else {
                    assert(t[a] == ov[a - 1]);
                    assert(t[b] == ov[b - 1]);
                }
            }
            lemma_insert_multiset(ov, j as int, x@);
            assert(input.take(i + 1) =~= input.take(i as int).push(input[i as int]));
        }
        out.insert(j, x);
        assert(agent_views(out@) =~= ov.insert(j as int, x@));
        i = i + 1;
    }
    assert(input.take(rows.len() as int) =~= input);
    *rows = out;
}

// ---------------------------------------------------------------------------
// Rows keyed by id
// ---------------------------------------------------------------------------

/// The first row with `id`.
pub open spec fn lookup(s: Seq<AgentV>, id: Seq<char>) -> Option<AgentV>
    decreases s.len(),
{
    if s.len() == 0 {
        None
    } else if s[0].id == id {
        Some(s[0])
    } else {
        lookup(s.drop_first(), id)
    }
}

/// Index of the first row with `id`.
pub open spec fn position(s: Seq<AgentV>, id: Seq<char>) -> Option<int>
    decreases s.len(),
{
    if s.len() == 0 {
        None
    } else if s.last().id == id && !(position(s.drop_last(), id) is Some) {
        Some(s.len() - 1)
    } else {
        position(s.drop_last(), id)
    }
}

pub open spec fn ids_unique(s: Seq<AgentV>) -> bool {
    forall|i: int, j: int| 0 <= i < j < s.len() ==> (#[trigger] s[i]).id != (#[trigger] s[j]).id
}

/// `r` in place of the row with its id, or appended.
pub open spec fn upsert(s: Seq<AgentV>, r: AgentV) -> Seq<AgentV> {
    match position(s, r.id) {
        Some(i) => s.update(i, r),
        None => s.push(r),
    }
}

proof fn lemma_position(s: Seq<AgentV>, id: Seq<char>)
    ensures
        position(s, id) matches Some(i) ==> 0 <= i < s.len() && s[i].id == id && forall|k: int|
            0 <= k < i ==> (#[trigger] s[k]).id != id,
        position(s, id) is None ==> forall|k: int| 0 <= k < s.len() ==> (#[trigger] s[k]).id != id,
    decreases s.len(),
{
    if s.len() > 0 {
        lemma_position(s.drop_last(), id);
        let d = s.drop_last();
        assert forall|k: int| 0 <= k < d.len() implies d[k] == s[k] by {}
    }
}

proof fn lemma_lookup(s: Seq<AgentV>, id: Seq<char>)
    ensures
        lookup(s, id) == match position(s, id) {
            Some(i) => Some(s[i]),
            None => None::<AgentV>,
        },
    decreases s.len(),
{
    lemma_position(s, id);
    if s.len() > 0 {
        let t = s.drop_first();
        lemma_lookup(t, id);
        lemma_position(t, id);
        if s[0].id != id {
            match position(s, id) {
                Some(i) => {
                    assert(t[i - 1] == s[i]);
                    assert forall|k: int| 0 <= k < i - 1 implies (#[trigger] t[k]).id != id by {
                        assert(t[k] == s[k + 1]);
                    }
                    match position(t, id) {
                        Some(j) => {
                            assert(s[j + 1] == t[j]);
                        },
                        None => {},
                    }
                },
                None => {
                    assert forall|k: int| 0 <= k < t.len() implies (#[trigger] t[k]).id != id by {
                        assert(t[k] == s[k + 1]);
                    }
                },
            }
        }
    }
}

/// Reading an id after writing a row gives that row back, and leaves every
/// other id as it was.
pub proof fn law_upsert_then_lookup(s: Seq<AgentV>, r: AgentV, other: Seq<char>)
    ensures
        lookup(upsert(s, r), r.id) == Some(r),
        other != r.id ==> lookup(upsert(s, r), other) == lookup(s, other),
        ids_unique(s) ==> ids_unique(upsert(s, r)),
{
    let u = upsert(s, r);
    lemma_position(s, r.id);
    lemma_position(u, r.id);
    lemma_lookup(u, r.id);
    lemma_lookup(u, other);
    lemma_lookup(s, other);
    lemma_position(s, other);
    lemma_position(u, other);
    match position(s, r.id) {
        Some(i) => {
            assert(u[i] == r);
            match position(u, r.id) {
                Some(j) => {
                    if j < i {
                        assert(u[j] == s[j]);
                    }
                    if j > i {
                        assert(u[i].id == r.id);
                    }
                },
                None => {
                    assert(u[i].id == r.id);
                },
            }
            if other != r.id {
                match (position(u, other), position(s, other)) {
                    (Some(a), Some(b)) => {
                        assert(u[a] == s[a] || a == i);
                        if a < b {
                            assert(s[a] == u[a]);
                        }
                        if b < a {
                            assert(u[b] == s[b]);
                        }
                    },
                    (Some(a), None) => {
                        assert(a != i);
                        assert(s[a] == u[a]);
                    },
                    (None, Some(b)) => {
                        assert(b != i);
                        assert(u[b] == s[b]);
                    },
                    (None, None) => {},
                }
            }
            assert forall|a: int, b: int| ids_unique(s) && 0 <= a < b < u.len() implies (#[trigger] u[a]).id
                != (#[trigger] u[b]).id by {
                if a != i && b != i {
                    assert(u[a] == s[a] && u[b] == s[b]);
                } else if a == i {
                    assert(u[b] == s[b]);
                    assert(s[i].id == r.id);
                } else {
                    assert(u[a] == s[a]);
                    assert(s[i].id == r.id);
                }
            }
        },
        None => {
            assert(u == s.push(r));
            assert(u[s.len() as int] == r);
            match position(u, r.id) {
                Some(j) => {
                    if j < s.len() {
                        assert(u[j] == s[j]);
                    }
                },
                None => {
                    assert(u[s.len() as int].id == r.id);
                },
            }
            if other != r.id {
                match (position(u, other), position(s, other)) {
                    (Some(a), Some(b)) => {
                        if a < s.len() {
                            assert(u[a] == s[a]);
                        }
                        assert(u[b] == s[b]);
                    },
                    (Some(a), None) => {
                        if a < s.len() {
                            assert(u[a] == s[a]);
                        }
                    },
                    (None, Some(b)) => {
                        assert(u[b] == s[b]);
                    },
                    (None, None) => {},
                }
            }
            assert forall|a: int, b: int| ids_unique(s) && 0 <= a < b < u.len() implies (#[trigger] u[a]).id
                != (#[trigger] u[b]).id by {
                assert(u[a] == s[a]);
                if b < s.len() {
                    assert(u[b] == s[b]);
                }
            }
        },
    }
}

fn find_position(rows: &Vec<AgentMetadata>, id: &str) -> (r: Option<usize>)
    ensures
        match (r, position(agent_views(rows@), id@)) {
            (Some(a), Some(b)) => a as int == b,
            (None, None) => true,
            _ => false,
        },
        r matches Some(a) ==> a < rows.len(),
{
    let ghost s = agent_views(rows@);
    proof {
        lemma_position(s, id@);
    }
    let target = chars_of(id);
    let mut i: usize = 0;
    while i < rows.len()
        invariant
            s == agent_views(rows@),
            target@ == id@,
            i <= rows.len(),
            forall|k: int| 0 <= k < i ==> (#[trigger] s[k]).id != id@,
        decreases rows.len() - i,
    {
        let c = chars_of(rows[i].id.as_str());
        assert(s[i as int] == rows@[i as int]@);
        if eq_chars(c.as_slice(), target.as_slice()) {
            proof {
                lemma_position(s, id@);
                assert(c@ == s[i as int].id);
                assert(s[i as int].id == id@);
                match position(s, id@) {
                    Some(p) => {
                        assert(s[p].id == id@);
                        if p < i {
                            assert(s[p].id != id@);
                        }
                        if p > i {
                            assert(s[i as int].id != id@);
                        }
                        assert(p == i);
                    },
                    None => {
                        assert(s[i as int].id != id@);
                    },
                }
            }
            return Some(i);
        }
        i = i + 1;
    }
    proof {
        match position(s, id@) {
            Some(p) => {
                assert(s[p].id == id@);
            },
            None => {},
        }
    }
    None
}

/// Write `row` under its id.
pub fn upsert_row(rows: &mut Vec<AgentMetadata>, row: AgentMetadata)
    ensures
        agent_views(final(rows)@) == upsert(agent_views(old(rows)@), row@),
{
    let ghost s = agent_views(rows@);
    match find_position(rows, row.id.as_str()) {
        Some(i) => {
            rows.set(i, row);
            assert(agent_views(rows@) =~= s.update(i as int, row@));
        },
        None => {
            rows.push(row);
            assert(agent_views(rows@) =~= s.push(row@));
        },
    }
}

/// Read the row with `id`.
pub fn lookup_row(rows: &Vec<AgentMetadata>, id: &str) -> (r: Option<AgentMetadata>)
    ensures
        match (r, lookup(agent_views(rows@), id@)) {
            (Some(a), Some(b)) => a@ == b,
            (None, None) => true,
            _ => false,
        },
{
    proof {
        lemma_lookup(agent_views(rows@), id@);
    }
    match find_position(rows, id) {
        Some(i) => Some(rows[i].duplicate()),
        None => None,
    }
}


// ---------------------------------------------------------------------------
// Rows derived for WSL distros
// ---------------------------------------------------------------------------

/// The CLI to look for inside WSL: the primary binary when the row names
/// one, else its spawn command; never an empty name.
pub open spec fn cli_command_of(m: AgentV) -> Option<Seq<char>> {
    let c = match m.agent_source_info.binary_name {
        Some(b) => Some(b),
        None => m.command,
    };
    match c {
        Some(x) => if x.len() > 0 {
            Some(x)
        } else {
            None
        },
        None => None,
    }
}

pub fn wsl_cli_command(meta: &AgentMetadata) -> (r: Option<String>)
    ensures
        opt_text(r) == cli_command_of(meta@),
{
    let c = match &meta.agent_source_info.binary_name {
        Some(b) => Some(copy_text(b)),
        None => copy_opt_text(&meta.command),
    };
    match c {
        Some(x) => {
            let v = chars_of(x.as_str());
            if v.len() > 0 {
                Some(x)
            } else {
                None
            }
        },
        None => None,
    }
}

/// Lower-case ASCII letters and digits of `s`, every run of other
/// characters turned into one `-`.
pub open spec fn slug_raw(s: Seq<char>) -> Seq<char>
    decreases s.len(),
{
    if s.len() == 0 {
        Seq::empty()
    } else {
        let p = slug_raw(s.drop_last());
        let c = s.last();
        if is_ascii_alnum(c) {
            p.push(lower(c))
        } else if p.len() > 0 && p.last() == '-' {
            p
        } else {
            p.push('-')
        }
    }
}

pub open spec fn trim_dashes_start(s: Seq<char>) -> Seq<char>
    decreases s.len(),
{
    if s.len() > 0 && s[0] == '-' {
        trim_dashes_start(s.drop_first())
    } else {
        s
    }
}

pub open spec fn trim_dashes_end(s: Seq<char>) -> Seq<char>
    decreases s.len(),
{
    if s.len() > 0 && s.last() == '-' {
        trim_dashes_end(s.drop_last())
    } else {
        s
    }
}

/// The id-safe form of a distro name; `default` when nothing is left.
pub open spec fn scope_slug(s: Seq<char>) -> Seq<char> {
    let t = trim_dashes_end(trim_dashes_start(slug_raw(s)));
    if t.len() == 0 {
        "default"@
    } else {
        t
    }
}

proof fn lemma_trim_dashes_start_at(s: Seq<char>, i: int)
    requires
        0 <= i <= s.len(),
        forall|k: int| 0 <= k < i ==> #[trigger] s[k] == '-',
        i == s.len() || s[i] != '-',
    ensures
        trim_dashes_start(s) == s.subrange(i, s.len() as int),
    decreases i,
{
    if i == 0 {
        assert(s.subrange(0, s.len() as int) =~= s);
    } else {
        let t = s.drop_first();
        assert forall|k: int| 0 <= k < i - 1 implies #[trigger] t[k] == '-' by {
            assert(t[k] == s[k + 1]);
        }
        lemma_trim_dashes_start_at(t, i - 1);
        assert(t.subrange(i - 1, t.len() as int) =~= s.subrange(i, s.len() as int));
    }
}

proof fn lemma_trim_dashes_end_at(s: Seq<char>, j: int)
    requires
        0 <= j <= s.len(),
        forall|k: int| j <= k < s.len() ==> #[trigger] s[k] == '-',
        j == 0 || s[j - 1] != '-',
    ensures
        trim_dashes_end(s) == s.subrange(0, j),
    decreases s.len() - j,
{
    if j == s.len() {
        assert(s.subrange(0, j) =~= s);
    } else {
        let t = s.drop_last();
        assert forall|k: int| j <= k < t.len() implies #[trigger] t[k] == '-' by {
            assert(t[k] == s[k]);
        }
        lemma_trim_dashes_end_at(t, j);
        assert(t.subrange(0, j) =~= s.subrange(0, j));
    }
}

pub fn wsl_scope_slug(value: &str) -> (r: String)
    ensures
        r@ == scope_slug(value@),
{
    let cs = chars_of(value);
    let mut slug: Vec<char> = Vec::new();
    let mut last_dash = false;
    let mut i: usize = 0;
    assert(cs@.take(0) =~= Seq::<char>::empty());
    while i < cs.len()
        invariant
            i <= cs.len(),
            cs@ == value@,
            slug@ == slug_raw(cs@.take(i as int)),
            last_dash == (slug@.len() > 0 && slug@.last() == '-'),
        decreases cs.len() - i,
    {
        let ch = cs[i];
        assert(cs@.take(i + 1).drop_last() =~= cs@.take(i as int));
        assert(cs@.take(i + 1).last() == ch);
        if char_is_ascii_alnum(ch) {
            let l = char_lower(ch);
            slug.push(l);
            last_dash = false;
        } else if !last_dash {
            slug.push('-');
            last_dash = true;
        }
        i = i + 1;
    }
    assert(cs@.take(cs.len() as int) =~= cs@);
    let mut a: usize = 0;
    while a < slug.len() && slug[a] == '-'
        invariant
            a <= slug.len(),
            forall|k: int| 0 <= k < a ==> #[trigger] slug@[k] == '-',
        decreases slug.len() - a,
    {
        a = a + 1;
    }
    proof {
        lemma_trim_dashes_start_at(slug@, a as int);
    }
    let ghost t = slug@.subrange(a as int, slug.len() as int);
    let mut b: usize = slug.len();
    while b > a && slug[b - 1] == '-'
        invariant
            a <= b <= slug.len(),
            forall|k: int| b <= k < slug.len() ==> #[trigger] slug@[k] == '-',
        decreases b,
    {
        b = b - 1;
    }
    proof {
        let tb = b - a;
        assert forall|k: int| tb <= k < t.len() implies #[trigger] t[k] == '-' by {
            assert(t[k] == slug@[k + a]);
        }
        if tb > 0 {
            assert(t[tb - 1] == slug@[b - 1]);
        }
        lemma_trim_dashes_end_at(t, tb as int);
        assert(t.subrange(0, tb as int) =~= slug@.subrange(a as int, b as int));
    }
    if a == b {
        return String::from_str("default");
    }
    let mut out: Vec<char> = Vec::new();
    let mut k = a;
    while k < b
        invariant
            a <= k <= b <= slug.len(),
            out@ == slug@.subrange(a as int, k as int),
        decreases b - k,
    {
        out.push(slug[k]);
        assert(slug@.subrange(a as int, k + 1) =~= slug@.subrange(a as int, k as int).push(
            slug@[k as int],
        ));
        k = k + 1;
    }
    string_from_chars(out.as_slice())
}

/// The row for `base`'s CLI found at `found` inside `distro`.
pub open spec fn derived_row(
    base: AgentV,
    distro: DistroV,
    cli: CliProbeV,
    found: Seq<char>,
    detected_at: Option<u64>,
) -> AgentV {
    AgentV {
        id: base.id + ":wsl:"@ + scope_slug(distro.name),
        name: base.name + " ("@ + distro.name + ")"@,
        runtime: Some(
            RuntimeV {
                kind: "wsl"@,
                platform: None,
                distro: Some(distro.name),
                version: distro.version,
                state: Some(distro.state),
                cli_path: Some(found),
                detected_at,
                probe_mode: Some(cli.probe_mode),
            },
        ),
        runtime_scope_id: Some("wsl:"@ + distro.name),
        runtime_display_name: Some(distro.name),
        available: true,
        command: Some(cli.command),
        resolved_command: Some(found),
        sort_order: (base.sort_order + 1) as i64,
        ..base
    }
}

/// The derived row, when the probe printed where the CLI is.
pub open spec fn derive_row_spec(base: AgentV, distro: DistroV, cli: CliProbeV, detected_at: Option<u64>) -> Option<AgentV> {
    match cli.found_path {
        Some(found) => Some(derived_row(base, distro, cli, found, detected_at)),
        None => None,
    }
}

pub fn derive_wsl_row(
    base: &AgentMetadata,
    distro: &WslDistro,
    cli_probe: &WslCliProbeResult,
    detected_at: Option<u64>,
) -> (r: Option<AgentMetadata>)
    requires
        base.sort_order < i64::MAX,
    ensures
        match (r, derive_row_spec(base@, distro@, cli_probe@, detected_at)) {
            (Some(a), Some(b)) => a@ == b,
            (None, None) => true,
            _ => false,
        },
{
    let found_path = match &cli_probe.found_path {
        Some(p) => copy_text(p),
        None => {
            return None;
        },
    };
    let mut row = base.duplicate();
    let mut id: Vec<char> = chars_of(base.id.as_str());
    append_str(&mut id, ":wsl:");
    let slug = wsl_scope_slug(distro.name.as_str());
    append_str(&mut id, slug.as_str());
    row.id = string_from_chars(id.as_slice());
    let mut name: Vec<char> = chars_of(base.name.as_str());
    append_str(&mut name, " (");
    append_str(&mut name, distro.name.as_str());
    append_str(&mut name, ")");
    row.name = string_from_chars(name.as_slice());
    row.runtime = Some(
        AgentRuntimeMetadata {
            kind: String::from_str("wsl"),
            platform: None,
            distro: Some(copy_text(&distro.name)),
            version: distro.version,
            state: Some(copy_text(&distro.state)),
            cli_path: Some(copy_text(&found_path)),
            detected_at,
            probe_mode: Some(copy_text(&cli_probe.probe_mode)),
        },
    );
    let mut scope: Vec<char> = chars_of("wsl:");
    append_str(&mut scope, distro.name.as_str());
    row.runtime_scope_id = Some(string_from_chars(scope.as_slice()));
    row.runtime_display_name = Some(copy_text(&distro.name));
    row.available = true;
    row.command = Some(copy_text(&cli_probe.command));
    row.resolved_command = Some(found_path);
    row.sort_order = base.sort_order + 1;
    Some(row)
}

/// The rows derived from one probe report: one per distro whose CLI probe
/// found the CLI available at a known path.
pub open spec fn derived_rows(base: AgentV, dps: Seq<DistroProbeV>, detected_at: Option<u64>) -> Seq<AgentV>
    decreases dps.len(),
{
    if dps.len() == 0 {
        Seq::empty()
    } else {
        let prev = derived_rows(base, dps.drop_last(), detected_at);
        let d = dps.last();
        match d.cli_probe {
            Some(c) => if c.available {
                match derive_row_spec(base, d.distro, c, detected_at) {
                    Some(r) => prev.push(r),
                    None => prev,
                }
            } else {
                prev
            },
            None => prev,
        }
    }
}

pub open spec fn report_rows(base: AgentV, report: ReportV, detected_at: Option<u64>) -> Seq<AgentV> {
    if !report.wsl_available {
        Seq::empty()
    } else {
        derived_rows(base, report.distros, detected_at)
    }
}

pub fn derive_wsl_rows(base: &AgentMetadata, report: &WslProbeReport, detected_at: Option<u64>) -> (r: Vec<
    AgentMetadata,
>)
    requires
        base.sort_order < i64::MAX,
    ensures
        agent_views(r@) == report_rows(base@, report@, detected_at),
{
    let mut out: Vec<AgentMetadata> = Vec::new();
    if !report.wsl_available {
        assert(agent_views(out@) =~= Seq::<AgentV>::empty());
        return out;
    }
    let ghost dps = report@.distros;
    let mut i: usize = 0;
    assert(dps.take(0) =~= Seq::<DistroProbeV>::empty());
    assert(agent_views(out@) =~= Seq::<AgentV>::empty());
    while i < report.distros.len()
        invariant
            base.sort_order < i64::MAX,
            dps == report@.distros,
            i <= report.distros.len(),
            agent_views(out@) == derived_rows(base@, dps.take(i as int), detected_at),
        decreases report.distros.len() - i,
    {
        assert(dps.take(i + 1).drop_last() =~= dps.take(i as int));
        assert(dps.take(i + 1).last() == report.distros@[i as int]@);
        let dp = &report.distros[i];
        match &dp.cli_probe {
            Some(c) => {
                if c.available {
                    match derive_wsl_row(base, &dp.distro, c, detected_at) {
                        Some(row) => {
                            assert(agent_views(out@.push(row)) =~= agent_views(out@).push(row@));
                            out.push(row);
                        },
                        None => {},
                    }
                }
            },
            None => {},
        }
        i = i + 1;
    }
    assert(dps.take(report.distros.len() as int) =~= dps);
    out
}


// ---------------------------------------------------------------------------
// Availability
// ---------------------------------------------------------------------------

/// Why a row's spawn command failed to resolve.
#[derive(Debug, Clone)]
pub enum UnavailableReason {
    /// The row is disabled by the user; nothing was looked up.
    Disabled,
    /// The row has no spawn command.
    NoCommand,
    /// The bridge binary is not on `$PATH`.
    BridgeMissing { bridge: String },
    /// The primary CLI is not on `$PATH`.
    PrimaryMissing { binary: String },
    /// The spawn command itself is not on `$PATH`.
    CommandMissing { command: String },
    /// A managed runtime or tool is not usable.
    ManagedRuntimeUnavailable { resource: String, detail: String },
}

pub enum ReasonV {
    Disabled,
    NoCommand,
    BridgeMissing(Seq<char>),
    PrimaryMissing(Seq<char>),
    CommandMissing(Seq<char>),
    ManagedRuntimeUnavailable(Seq<char>, Seq<char>),
}

impl View for UnavailableReason {
    type V = ReasonV;

    open spec fn view(&self) -> ReasonV {
        match self {
            UnavailableReason::Disabled => ReasonV::Disabled,
            UnavailableReason::NoCommand => ReasonV::NoCommand,
            UnavailableReason::BridgeMissing { bridge } => ReasonV::BridgeMissing(bridge@),
            UnavailableReason::PrimaryMissing { binary } => ReasonV::PrimaryMissing(binary@),
            UnavailableReason::CommandMissing { command } => ReasonV::CommandMissing(command@),
            UnavailableReason::ManagedRuntimeUnavailable { resource, detail } =>
                ReasonV::ManagedRuntimeUnavailable(resource@, detail@),
        }
    }
}

pub open spec fn reason_message(r: ReasonV) -> Seq<char> {
    match r {
        ReasonV::Disabled => "row disabled by user"@,
        ReasonV::NoCommand => "no spawn command configured"@,
        ReasonV::BridgeMissing(b) => "bridge binary `"@ + b + "` not on $PATH"@,
        ReasonV::PrimaryMissing(b) => "primary binary `"@ + b + "` not on $PATH"@,
        ReasonV::CommandMissing(c) => "spawn command `"@ + c + "` not on $PATH"@,
        ReasonV::ManagedRuntimeUnavailable(r, d) => "managed `"@ + r + "` unavailable: "@ + d,
    }
}

impl UnavailableReason {
    /// The message that the reason's `Display` form writes.
    pub fn to_string(&self) -> (r: String)
        ensures
            r@ == reason_message(self@),
    {
        let mut out: Vec<char> = Vec::new();
        match self {
            UnavailableReason::Disabled => append_str(&mut out, "row disabled by user"),
            UnavailableReason::NoCommand => append_str(&mut out, "no spawn command configured"),
            UnavailableReason::BridgeMissing { bridge } => {
                append_str(&mut out, "bridge binary `");
                append_str(&mut out, bridge.as_str());
                append_str(&mut out, "` not on $PATH");
            },
            UnavailableReason::PrimaryMissing { binary } => {
                append_str(&mut out, "primary binary `");
                append_str(&mut out, binary.as_str());
                append_str(&mut out, "` not on $PATH");
            },
            UnavailableReason::CommandMissing { command } => {
                append_str(&mut out, "spawn command `");
                append_str(&mut out, command.as_str());
                append_str(&mut out, "` not on $PATH");
            },
            UnavailableReason::ManagedRuntimeUnavailable { resource, detail } => {
                append_str(&mut out, "managed `");
                append_str(&mut out, resource.as_str());
                append_str(&mut out, "` unavailable: ");
                append_str(&mut out, detail.as_str());
            },
        }
        assert(out@ =~= reason_message(self@));
        string_from_chars(out.as_slice())
    }
}

/// Whether a managed runtime or tool can be used, and why not.
pub struct RuntimeSupport {
    pub supported: bool,
    pub detail: String,
}

/// The managed ACP tool that a builtin row's backend names, and the state
/// of what it needs.
pub struct ManagedToolFacts {
    pub slug: String,
    pub node: RuntimeSupport,
    pub tool: RuntimeSupport,
}

/// What the host reported when a row's commands were looked up: the
/// managed tool of a builtin row, if its backend names one, and the path
/// (if any) that each looked-up name resolved to.
pub struct CommandProbeFacts {
    pub managed: Option<ManagedToolFacts>,
    pub lookups: Vec<(String, Option<String>)>,
}

pub struct ManagedV {
    pub slug: Seq<char>,
    pub node_supported: bool,
    pub node_detail: Seq<char>,
    pub tool_supported: bool,
    pub tool_detail: Seq<char>,
}

pub struct FactsV {
    pub managed: Option<ManagedV>,
    pub lookups: Seq<(Seq<char>, Option<Seq<char>>)>,
}

impl View for CommandProbeFacts {
    type V = FactsV;

    open spec fn view(&self) -> FactsV {
        FactsV {
            managed: match self.managed {
                Some(m) => Some(
                    ManagedV {
                        slug: m.slug@,
                        node_supported: m.node.supported,
                        node_detail: m.node.detail@,
                        tool_supported: m.tool.supported,
                        tool_detail: m.tool.detail@,
                    },
                ),
                None => None,
            },
            lookups: self.lookups@.map_values(
                |e: (String, Option<String>)| (e.0@, opt_text(e.1)),
            ),
        }
    }
}

/// The path that `name` resolved to; a name that was not looked up did not
/// resolve.
pub open spec fn resolve_in(lookups: Seq<(Seq<char>, Option<Seq<char>>)>, name: Seq<char>) -> Option<Seq<char>>
    decreases lookups.len(),
{
    if lookups.len() == 0 {
        None
    } else if lookups[0].0 == name {
        lookups[0].1
    } else {
        resolve_in(lookups.drop_first(), name)
    }
}

/// The resolved spawn path of a row, or the first missing piece.
pub open spec fn resolve_row(m: AgentV, f: FactsV) -> Result<Seq<char>, ReasonV> {
    if !m.enabled {
        Err(ReasonV::Disabled)
    } else if m.agent_source == AgentSource::Builtin && m.backend is Some && f.managed is Some {
        let t = f.managed->Some_0;
        if !t.node_supported {
            Err(ReasonV::ManagedRuntimeUnavailable("node"@, t.node_detail))
        } else if !t.tool_supported {
            Err(ReasonV::ManagedRuntimeUnavailable(t.slug, t.tool_detail))
        } else if m.agent_source_info.binary_name is Some && resolve_in(
            f.lookups,
            m.agent_source_info.binary_name->Some_0,
        ) is None {
            Err(ReasonV::PrimaryMissing(m.agent_source_info.binary_name->Some_0))
        } else {
            Ok(t.slug)
        }
    } else if !(m.command is Some && m.command->Some_0.len() > 0) {
        Err(ReasonV::NoCommand)
    } else {
        let cmd = m.command->Some_0;
        let bridge = m.agent_source_info.bridge_binary;
        let primary = m.agent_source_info.binary_name;
        if bridge is Some && bridge->Some_0 != cmd && resolve_in(f.lookups, bridge->Some_0) is None {
            Err(ReasonV::BridgeMissing(bridge->Some_0))
        } else if primary is Some && primary->Some_0 != cmd && bridge != primary && resolve_in(
            f.lookups,
            primary->Some_0,
        ) is None {
            Err(ReasonV::PrimaryMissing(primary->Some_0))
        } else {
            match resolve_in(f.lookups, cmd) {
                Some(p) => Ok(p),
                None => Err(ReasonV::CommandMissing(cmd)),
            }
        }
    }
}

pub open spec fn resolve_view(r: Result<String, UnavailableReason>) -> Result<Seq<char>, ReasonV> {
    match r {
        Ok(p) => Ok(p@),
        Err(e) => Err(e@),
    }
}

/// Where the host reported `command` to resolve, if anywhere.
pub fn probe_command_candidate(facts: &CommandProbeFacts, command: &str) -> (r: Option<String>)
    ensures
        opt_text(r) == resolve_in(facts@.lookups, command@),
{
    let ghost l = facts@.lookups;
    let target = chars_of(command);
    let mut i: usize = 0;
    assert(l.skip(0) =~= l);
    while i < facts.lookups.len()
        invariant
            l == facts@.lookups,
            target@ == command@,
            i <= facts.lookups.len(),
            resolve_in(l, command@) == resolve_in(l.skip(i as int), command@),
        decreases facts.lookups.len() - i,
    {
        let ghost rest = l.skip(i as int);
        assert(rest[0] == l[i as int]);
        assert(rest.drop_first() =~= l.skip(i + 1));
        let name = chars_of(facts.lookups[i].0.as_str());
        if eq_chars(name.as_slice(), target.as_slice()) {
            return copy_opt_text(&facts.lookups[i].1);
        }
        i = i + 1;
    }
    None
}

fn text_eq(a: &String, b: &String) -> (r: bool)
    ensures
        r == (a@ == b@),
{
    let x = chars_of(a.as_str());
    let y = chars_of(b.as_str());
    eq_chars(x.as_slice(), y.as_slice())
}

/// Resolve the row's spawn command, or name the first missing piece.
pub fn probe_resolved_command(meta: &AgentMetadata, facts: &CommandProbeFacts) -> (r: Result<
    String,
    UnavailableReason,
>)
    ensures
        resolve_view(r) == resolve_row(meta@, facts@),
{
    if !meta.enabled {
        return Err(UnavailableReason::Disabled);
    }
    if meta.agent_source == AgentSource::Builtin && meta.backend.is_some() {
        match &facts.managed {
            Some(tool) => {
                if !tool.node.supported {
                    return Err(
                        UnavailableReason::ManagedRuntimeUnavailable {
                            resource: String::from_str("node"),
                            detail: copy_text(&tool.node.detail),
                        },
                    );
                }
                if !tool.tool.supported {
                    return Err(
                        UnavailableReason::ManagedRuntimeUnavailable {
                            resource: copy_text(&tool.slug),
                            detail: copy_text(&tool.tool.detail),
                        },
                    );
                }
                match &meta.agent_source_info.binary_name {
                    Some(primary) => {
                        if probe_command_candidate(facts, primary.as_str()).is_none() {
                            return Err(UnavailableReason::PrimaryMissing { binary: copy_text(primary) });
                        }
                    },
                    None => {},
                }
                return Ok(copy_text(&tool.slug));
            },
            None => {},
        }
    }
    let cmd = match &meta.command {
        Some(c) => {
            if chars_of(c.as_str()).len() == 0 {
                return Err(UnavailableReason::NoCommand);
            }
            c
        },
        None => {
            return Err(UnavailableReason::NoCommand);
        },
    };
    match &meta.agent_source_info.bridge_binary {
        Some(bridge) => {
            if !text_eq(bridge, cmd) && probe_command_candidate(facts, bridge.as_str()).is_none() {
                return Err(UnavailableReason::BridgeMissing { bridge: copy_text(bridge) });
            }
        },
        None => {},
    }
    match &meta.agent_source_info.binary_name {
        Some(primary) => {
            let same_as_bridge = match &meta.agent_source_info.bridge_binary {
                Some(bridge) => text_eq(bridge, primary),
                None => false,
            };
            if !text_eq(primary, cmd) && !same_as_bridge && probe_command_candidate(
                facts,
                primary.as_str(),
            ).is_none() {
                return Err(UnavailableReason::PrimaryMissing { binary: copy_text(primary) });
            }
        },
        None => {},
    }
    match probe_command_candidate(facts, cmd.as_str()) {
        Some(p) => Ok(p),
        None => Err(UnavailableReason::CommandMissing { command: copy_text(cmd) }),
    }
}

/// A row is available when its command resolved, or when it is an enabled
/// internal row that needs no command.
pub open spec fn probed_row(m: AgentV, r: Result<Seq<char>, ReasonV>) -> AgentV {
    let resolved = match r {
        Ok(p) => Some(p),
        Err(_) => None,
    };
    AgentV {
        resolved_command: resolved,
        available: resolved is Some || (m.enabled && m.command is None && m.agent_source
            == AgentSource::Internal),
        ..m
    }
}

/// The row with the outcome of resolving its command applied.
pub fn apply_probe(meta: &mut AgentMetadata, result: Result<String, UnavailableReason>) -> (reason: Option<
    UnavailableReason,
>)
    ensures
        final(meta)@ == probed_row(old(meta)@, resolve_view(result)),
        match (reason, resolve_view(result)) {
            (Some(a), Err(b)) => a@ == b,
            (None, Ok(_)) => true,
            _ => false,
        },
{
    let reason = match result {
        Ok(path) => {
            meta.resolved_command = Some(path);
            None
        },
        Err(reason) => {
            meta.resolved_command = None;
            Some(reason)
        },
    };
    meta.available = meta.resolved_command.is_some() || (meta.enabled && meta.command.is_none()
        && meta.agent_source == AgentSource::Internal);
    reason
}

/// For a diagnostic listing: the reason a row is unavailable, and none for
/// an available row.
pub open spec fn diagnostic_reason(m: AgentV, f: FactsV) -> Option<ReasonV> {
    if m.available {
        None
    } else {
        match resolve_row(m, f) {
            Ok(_) => None,
            Err(e) => Some(e),
        }
    }
}

pub open spec fn opt_reason(o: Option<UnavailableReason>) -> Option<ReasonV> {
    match o {
        Some(r) => Some(r@),
        None => None,
    }
}

/// Each row paired with the reason it is unavailable (none for an
/// available row), `facts[i]` being what the host reported for `rows[i]`.
pub fn diagnostic_snapshot(rows: &[AgentMetadata], facts: &[CommandProbeFacts]) -> (r: Vec<
    (AgentMetadata, Option<UnavailableReason>),
>)
    requires
        facts.len() == rows.len(),
    ensures
        r@.len() == rows.len(),
        forall|i: int|
            0 <= i < rows.len() ==> (#[trigger] r@[i]).0@ == rows@[i]@ && opt_reason(r@[i].1)
                == diagnostic_reason(rows@[i]@, facts@[i]@),
{
    let mut out: Vec<(AgentMetadata, Option<UnavailableReason>)> = Vec::new();
    let mut i: usize = 0;
    while i < rows.len()
        invariant
            facts.len() == rows.len(),
            i <= rows.len(),
            out@.len() == i,
            forall|k: int|
                0 <= k < i ==> (#[trigger] out@[k]).0@ == rows@[k]@ && opt_reason(out@[k].1)
                    == diagnostic_reason(rows@[k]@, facts@[k]@),
        decreases rows.len() - i,
    {
        let m = &rows[i];
        let reason = if m.available {
            None
        } else {
            match probe_resolved_command(m, &facts[i]) {
                Ok(_) => None,
                Err(e) => Some(e),
            }
        };
        out.push((m.duplicate(), reason));
        i = i + 1;
    }
    out
}


// ---------------------------------------------------------------------------
// The catalog
// ---------------------------------------------------------------------------

/// The rows that satisfy `visible`, in order.
pub open spec fn visible_rows(s: Seq<AgentV>) -> Seq<AgentV>
    decreases s.len(),
{
    if s.len() == 0 {
        Seq::empty()
    } else if visible(s.last()) {
        visible_rows(s.drop_last()).push(s.last())
    } else {
        visible_rows(s.drop_last())
    }
}

/// The visible rows of type `t`, in order.
pub open spec fn visible_of_type(s: Seq<AgentV>, t: AgentType) -> Seq<AgentV>
    decreases s.len(),
{
    if s.len() == 0 {
        Seq::empty()
    } else if visible(s.last()) && s.last().agent_type == t {
        visible_of_type(s.drop_last(), t).push(s.last())
    } else {
        visible_of_type(s.drop_last(), t)
    }
}

/// Visible ACP rows with a CLI to look for inside WSL, with that CLI.
pub open spec fn probe_targets(s: Seq<AgentV>) -> Seq<(AgentV, Seq<char>)>
    decreases s.len(),
{
    if s.len() == 0 {
        Seq::empty()
    } else if visible(s.last()) && s.last().agent_type == AgentType::Acp && cli_command_of(
        s.last(),
    ) is Some {
        probe_targets(s.drop_last()).push((s.last(), cli_command_of(s.last())->Some_0))
    } else {
        probe_targets(s.drop_last())
    }
}

/// The rows written one after the other, a later row replacing an
/// earlier one with the same id.
pub open spec fn upsert_all(s: Seq<AgentV>, rows: Seq<AgentV>) -> Seq<AgentV>
    decreases rows.len(),
{
    if rows.len() == 0 {
        s
    } else {
        upsert(upsert_all(s, rows.drop_last()), rows.last())
    }
}

/// The WSL rows derived from each probed base row and its report, a later
/// row replacing an earlier one with the same id.
pub open spec fn wsl_table(results: Seq<(AgentV, ReportV)>, detected_at: Option<u64>) -> Seq<AgentV>
    decreases results.len(),
{
    if results.len() == 0 {
        Seq::empty()
    } else {
        let r = results.last();
        upsert_all(wsl_table(results.drop_last(), detected_at), report_rows(r.0, r.1, detected_at))
    }
}

/// The rows of a diagnostic listing.
pub open spec fn snapshot_rows(v: Seq<(AgentMetadata, Option<UnavailableReason>)>) -> Seq<AgentV> {
    v.map_values(|e: (AgentMetadata, Option<UnavailableReason>)| e.0@)
}

/// The catalog: native rows by id, WSL rows by id, and the WSL switch.
pub struct AgentCatalog {
    rows: Vec<AgentMetadata>,
    wsl_rows: Vec<AgentMetadata>,
    wsl_supported: bool,
    wsl_enabled: bool,
}

pub struct CatalogV {
    pub rows: Seq<AgentV>,
    pub wsl_rows: Seq<AgentV>,
    pub wsl_supported: bool,
    pub wsl_enabled: bool,
}

impl View for AgentCatalog {
    type V = CatalogV;

    closed spec fn view(&self) -> CatalogV {
        CatalogV {
            rows: agent_views(self.rows@),
            wsl_rows: agent_views(self.wsl_rows@),
            wsl_supported: self.wsl_supported,
            wsl_enabled: self.wsl_enabled,
        }
    }
}

/// One row per id in each table; WSL is on only where it is supported,
/// and there are no WSL rows while it is off.
pub open spec fn catalog_wf(c: CatalogV) -> bool {
    &&& ids_unique(c.rows)
    &&& ids_unique(c.wsl_rows)
    &&& c.wsl_enabled ==> c.wsl_supported
    &&& !c.wsl_enabled ==> c.wsl_rows.len() == 0
}

/// A native row first, else a WSL row.
pub open spec fn catalog_get(c: CatalogV, id: Seq<char>) -> Option<AgentV> {
    match lookup(c.rows, id) {
        Some(m) => Some(m),
        None => lookup(c.wsl_rows, id),
    }
}

pub open spec fn is_builtin_of(m: AgentV, vendor: Seq<char>) -> bool {
    m.backend == Some(vendor) && m.agent_source == AgentSource::Builtin
}

/// `s[i]` is the first builtin row of `vendor` in `s`.
pub open spec fn first_builtin_at(s: Seq<AgentV>, vendor: Seq<char>, i: int) -> bool {
    &&& 0 <= i < s.len()
    &&& is_builtin_of(s[i], vendor)
    &&& forall|k: int| 0 <= k < i ==> !is_builtin_of(#[trigger] s[k], vendor)
}

fn copy_rows(v: &Vec<AgentMetadata>) -> (r: Vec<AgentMetadata>)
    ensures
        agent_views(r@) == agent_views(v@),
{
    let mut r: Vec<AgentMetadata> = Vec::new();
    let mut i: usize = 0;
    while i < v.len()
        invariant
            i <= v.len(),
            agent_views(r@) == agent_views(v@.take(i as int)),
        decreases v.len() - i,
    {
        let m = v[i].duplicate();
        assert(agent_views(r@.push(m)) =~= agent_views(r@).push(m@));
        assert(agent_views(v@.take(i + 1)) =~= agent_views(v@.take(i as int)).push(v@[i as int]@));
        r.push(m);
        i = i + 1;
    }
    assert(v@.take(v.len() as int) =~= v@);
    r
}

fn push_visible(out: &mut Vec<AgentMetadata>, v: &Vec<AgentMetadata>, t: Option<AgentType>)
    ensures
        agent_views(final(out)@) == agent_views(old(out)@) + match t {
            Some(ty) => visible_of_type(agent_views(v@), ty),
            None => visible_rows(agent_views(v@)),
        },
{
    let ghost s = agent_views(v@);
    let ghost base = agent_views(out@);
    let mut i: usize = 0;
    assert(s.take(0) =~= Seq::<AgentV>::empty());
    assert(base + Seq::<AgentV>::empty() =~= base);
    while i < v.len()
        invariant
            s == agent_views(v@),
            i <= v.len(),
            agent_views(out@) == base + match t {
                Some(ty) => visible_of_type(s.take(i as int), ty),
                None => visible_rows(s.take(i as int)),
            },
        decreases v.len() - i,
    {
        assert(s.take(i + 1).drop_last() =~= s.take(i as int));
        assert(s.take(i + 1).last() == v@[i as int]@);
        let m = &v[i];
        let keep = is_visible(m) && match t {
            Some(ty) => m.agent_type == ty,
            None => true,
        };
        if keep {
            let d = m.duplicate();
            assert(agent_views(out@.push(d)) =~= agent_views(out@).push(d@));
            out.push(d);
            proof {
                match t {
                    Some(ty) => {
                        assert(base + visible_of_type(s.take(i + 1), ty) =~= (base
                            + visible_of_type(s.take(i as int), ty)).push(d@));
                    },
                    None => {
                        assert(base + visible_rows(s.take(i + 1)) =~= (base + visible_rows(
                            s.take(i as int),
                        )).push(d@));
                    },
                }
            }
        }
        i = i + 1;
    }
    assert(s.take(v.len() as int) =~= s);
}

impl AgentCatalog {
    /// An empty catalog; WSL is on only when the host supports it and it
    /// is asked for.
    pub fn new(wsl_supported: bool, wsl_enabled: bool) -> (r: Self)
        ensures
            catalog_wf(r@),
            r@.rows.len() == 0,
            r@.wsl_rows.len() == 0,
            r@.wsl_supported == wsl_supported,
            r@.wsl_enabled == (wsl_supported && wsl_enabled),
    {
        let r = AgentCatalog {
            rows: Vec::new(),
            wsl_rows: Vec::new(),
            wsl_supported,
            wsl_enabled: wsl_supported && wsl_enabled,
        };
        assert(r@.rows =~= Seq::<AgentV>::empty());
        assert(r@.wsl_rows =~= Seq::<AgentV>::empty());
        r
    }

    /// Replace the native rows with `rows` (decoded and probed), a later
    /// row replacing an earlier one with the same id.
    pub fn load_rows(&mut self, rows: Vec<AgentMetadata>)
        requires
            catalog_wf(old(self)@),
        ensures
            catalog_wf(final(self)@),
            final(self)@.rows == upsert_all(Seq::empty(), agent_views(rows@)),
            final(self)@.wsl_rows == old(self)@.wsl_rows,
            final(self)@.wsl_supported == old(self)@.wsl_supported,
            final(self)@.wsl_enabled == old(self)@.wsl_enabled,
    {
        let ghost input = agent_views(rows@);
        let mut table: Vec<AgentMetadata> = Vec::new();
        let mut i: usize = 0;
        assert(input.take(0) =~= Seq::<AgentV>::empty());
        assert(agent_views(table@) =~= Seq::<AgentV>::empty());
        while i < rows.len()
            invariant
                input == agent_views(rows@),
                i <= rows.len(),
                agent_views(table@) == upsert_all(Seq::empty(), input.take(i as int)),
                ids_unique(agent_views(table@)),
            decreases rows.len() - i,
        {
            assert(input.take(i + 1).drop_last() =~= input.take(i as int));
            assert(input.take(i + 1).last() == rows@[i as int]@);
            let m = rows[i].duplicate();
            proof {
                law_upsert_then_lookup(agent_views(table@), m@, m@.id);
            }
            upsert_row(&mut table, m);
            i = i + 1;
        }
        assert(input.take(rows.len() as int) =~= input);
        self.rows = table;
    }

    /// Apply each row's command resolution, `results[i]` belonging to the
    /// `i`-th row in [`AgentCatalog::rows`] order.
    pub fn refresh_availability(&mut self, results: Vec<Result<String, UnavailableReason>>)
        requires
            catalog_wf(old(self)@),
            results.len() == old(self)@.rows.len(),
        ensures
            catalog_wf(final(self)@),
            final(self)@.rows.len() == old(self)@.rows.len(),
            forall|i: int|
                0 <= i < old(self)@.rows.len() ==> #[trigger] final(self)@.rows[i] == probed_row(
                    old(self)@.rows[i],
                    resolve_view(results@[i]),
                ),
            final(self)@.wsl_rows == old(self)@.wsl_rows,
            final(self)@.wsl_supported == old(self)@.wsl_supported,
            final(self)@.wsl_enabled == old(self)@.wsl_enabled,
    {
        let ghost old_rows = agent_views(self.rows@);
        let mut results = results;
        let mut i: usize = 0;
        let mut table: Vec<AgentMetadata> = Vec::new();
        while i < self.rows.len()
            invariant
                old_rows == agent_views(self.rows@),
                results.len() == self.rows.len(),
                i <= self.rows.len(),
                agent_views(table@).len() == i,
                forall|k: int| 0 <= k < i ==> #[trigger] agent_views(table@)[k] == probed_row(
                    old_rows[k],
                    resolve_view(results@[k]),
                ),
            decreases self.rows.len() - i,
        {
            let mut m = self.rows[i].duplicate();
            let r = match &results[i] {
                Ok(p) => Ok(copy_text(p)),
                Err(e) => Err(
                    match e {
                        UnavailableReason::Disabled => UnavailableReason::Disabled,
                        UnavailableReason::NoCommand => UnavailableReason::NoCommand,
                        UnavailableReason::BridgeMissing { bridge } => UnavailableReason::BridgeMissing {
                            bridge: copy_text(bridge),
                        },
                        UnavailableReason::PrimaryMissing { binary } => UnavailableReason::PrimaryMissing {
                            binary: copy_text(binary),
                        },
                        UnavailableReason::CommandMissing { command } => UnavailableReason::CommandMissing {
                            command: copy_text(command),
                        },
                        UnavailableReason::ManagedRuntimeUnavailable { resource, detail } =>
                            UnavailableReason::ManagedRuntimeUnavailable {
                            resource: copy_text(resource),
                            detail: copy_text(detail),
                        },
                    },
                ),
            };
            assert(resolve_view(r) == resolve_view(results@[i as int]));
            let _ = apply_probe(&mut m, r);
            assert(agent_views(table@.push(m)) =~= agent_views(table@).push(m@));
            table.push(m);
            i = i + 1;
        }
        proof {
            let t = agent_views(table@);
            assert forall|a: int, b: int| 0 <= a < b < t.len() implies (#[trigger] t[a]).id
                != (#[trigger] t[b]).id by {
                assert(t[a].id == old_rows[a].id);
                assert(t[b].id == old_rows[b].id);
            }
        }
        self.rows = table;
    }

    /// The native rows in catalog order.
    pub fn rows(&self) -> (r: Vec<AgentMetadata>)
        ensures
            agent_views(r@) == self@.rows,
    {
        copy_rows(&self.rows)
    }

    pub fn is_wsl_enabled(&self) -> (r: bool)
        ensures
            r == (self@.wsl_supported && self@.wsl_enabled),
    {
        self.wsl_supported && self.wsl_enabled
    }

    pub fn is_wsl_supported(&self) -> (r: bool)
        ensures
            r == self@.wsl_supported,
    {
        self.wsl_supported
    }

    /// Turn WSL rows on or off; they stay off on a host without WSL
    /// support. Off drops every WSL row; the result says whether WSL is on
    /// (and its rows are then to be probed again).
    pub fn set_wsl_enabled(&mut self, enabled: bool) -> (on: bool)
        requires
            catalog_wf(old(self)@),
        ensures
            catalog_wf(final(self)@),
            on == (old(self)@.wsl_supported && enabled),
            final(self)@.wsl_enabled == on,
            final(self)@.wsl_supported == old(self)@.wsl_supported,
            final(self)@.rows == old(self)@.rows,
            !on ==> final(self)@.wsl_rows.len() == 0,
            on ==> final(self)@.wsl_rows == old(self)@.wsl_rows,
    {
        self.wsl_enabled = self.wsl_supported && enabled;
        if !self.wsl_enabled {
            self.wsl_rows = Vec::new();
            assert(self@.wsl_rows =~= Seq::<AgentV>::empty());
        }
        self.wsl_enabled
    }

    /// The row with `id`: a native row, else a WSL row.
    pub fn get(&self, id: &str) -> (r: Option<AgentMetadata>)
        ensures
            match (r, catalog_get(self@, id@)) {
                (Some(a), Some(b)) => a@ == b,
                (None, None) => true,
                _ => false,
            },
    {
        match lookup_row(&self.rows, id) {
            Some(m) => Some(m),
            None => lookup_row(&self.wsl_rows, id),
        }
    }

    /// A builtin native row whose backend is `vendor`.
    pub fn find_builtin_by_backend(&self, vendor: &str) -> (r: Option<AgentMetadata>)
        ensures
            r is None <==> !(exists|i: int|
                0 <= i < self@.rows.len() && is_builtin_of(#[trigger] self@.rows[i], vendor@)),
            r matches Some(m) ==> exists|i: int|
                first_builtin_at(self@.rows, vendor@, i) && #[trigger] self@.rows[i] == m@,
    {
        let ghost s = agent_views(self.rows@);
        let v = chars_of(vendor);
        let mut i: usize = 0;
        while i < self.rows.len()
            invariant
                s == agent_views(self.rows@),
                v@ == vendor@,
                i <= self.rows.len(),
                forall|k: int| 0 <= k < i ==> !is_builtin_of(#[trigger] s[k], vendor@),
            decreases self.rows.len() - i,
        {
            let m = &self.rows[i];
            assert(s[i as int] == m@);
            let matches = match &m.backend {
                Some(b) => {
                    let bc = chars_of(b.as_str());
                    eq_chars(bc.as_slice(), v.as_slice()) && m.agent_source == AgentSource::Builtin
                },
                None => false,
            };
            if matches {
                let d = m.duplicate();
                assert(self@.rows[i as int] == d@);
                assert(is_builtin_of(self@.rows[i as int], vendor@));
                assert(first_builtin_at(self@.rows, vendor@, i as int));
                return Some(d);
            }
            i = i + 1;
        }
        None
    }

    /// Visible rows, native and WSL, ordered by `sort_order` then name.
    pub fn list_all(&self) -> (r: Vec<AgentMetadata>)
        ensures
            sorted_rows(agent_views(r@)),
            agent_views(r@).to_multiset() == (visible_rows(self@.rows) + visible_rows(
                self@.wsl_rows,
            )).to_multiset(),
    {
        let mut out: Vec<AgentMetadata> = Vec::new();
        assert(agent_views(out@) =~= Seq::<AgentV>::empty());
        push_visible(&mut out, &self.rows, None);
        assert(Seq::<AgentV>::empty() + visible_rows(self@.rows) =~= visible_rows(self@.rows));
        push_visible(&mut out, &self.wsl_rows, None);
        sort_agent_rows(&mut out);
        out
    }

    /// Visible rows of type `agent_type`, native and WSL, ordered by
    /// `sort_order` then name.
    pub fn list_by_agent_type(&self, agent_type: AgentType) -> (r: Vec<AgentMetadata>)
        ensures
            sorted_rows(agent_views(r@)),
            agent_views(r@).to_multiset() == (visible_of_type(self@.rows, agent_type)
                + visible_of_type(self@.wsl_rows, agent_type)).to_multiset(),
    {
        let mut out: Vec<AgentMetadata> = Vec::new();
        assert(agent_views(out@) =~= Seq::<AgentV>::empty());
        push_visible(&mut out, &self.rows, Some(agent_type));
        assert(Seq::<AgentV>::empty() + visible_of_type(self@.rows, agent_type) =~= visible_of_type(
            self@.rows,
            agent_type,
        ));
        push_visible(&mut out, &self.wsl_rows, Some(agent_type));
        sort_agent_rows(&mut out);
        out
    }

    /// Every native row, hidden ones included, ordered by `sort_order` then
    /// name.
    pub fn list_all_including_hidden(&self) -> (r: Vec<AgentMetadata>)
        ensures
            sorted_rows(agent_views(r@)),
            agent_views(r@).to_multiset() == self@.rows.to_multiset(),
    {
        let mut out = copy_rows(&self.rows);
        sort_agent_rows(&mut out);
        out
    }

    /// Every native row, hidden ones included, ordered by `sort_order` then
    /// name, each with the reason it is unavailable (none for an available
    /// row). `facts[j]` is what the host reported for the `j`-th row of
    /// [`AgentCatalog::rows`].
    pub fn diagnostic_snapshot(&self, facts: &[CommandProbeFacts]) -> (r: Vec<
        (AgentMetadata, Option<UnavailableReason>),
    >)
        requires
            catalog_wf(self@),
            facts.len() == self@.rows.len(),
        ensures
            sorted_rows(snapshot_rows(r@)),
            snapshot_rows(r@).to_multiset() == self@.rows.to_multiset(),
            forall|i: int|
                #![trigger r@[i]]
                0 <= i < r@.len() ==> exists|j: int|
                    0 <= j < self@.rows.len() && #[trigger] self@.rows[j] == r@[i].0@ && opt_reason(
                        r@[i].1,
                    ) == diagnostic_reason(self@.rows[j], facts@[j]@),
    {
        let sorted = self.list_all_including_hidden();
        let ghost sv = agent_views(sorted@);
        let ghost rows = agent_views(self.rows@);
        let mut out: Vec<(AgentMetadata, Option<UnavailableReason>)> = Vec::new();
        let mut i: usize = 0;
        while i < sorted.len()
            invariant
                sv == agent_views(sorted@),
                rows == agent_views(self.rows@),
                rows == self@.rows,
                catalog_wf(self@),
                facts.len() == rows.len(),
                sv.to_multiset() == rows.to_multiset(),
                i <= sorted.len(),
                snapshot_rows(out@) == sv.take(i as int),
                forall|k: int|
                    #![trigger out@[k]]
                    0 <= k < i ==> exists|j: int|
                        0 <= j < rows.len() && #[trigger] rows[j] == out@[k].0@ && opt_reason(
                            out@[k].1,
                        ) == diagnostic_reason(rows[j], facts@[j]@),
            decreases sorted.len() - i,
        {
            let m = &sorted[i];
            assert(sv[i as int] == m@);
            proof {
                assert(sv.contains(m@));
                assert(rows.to_multiset().count(m@) > 0);
                lemma_position(rows, m@.id);
            }
            match find_position(&self.rows, m.id.as_str()) {
                Some(j) => {
                    proof {
                        let k = choose|k: int| 0 <= k < rows.len() && rows[k] == m@;
                        assert(rows[j as int].id == m@.id);
                        if k != j as int {
                            assert(rows[k].id == rows[j as int].id);
                        }
                        assert(rows[j as int] == m@);
                    }
                    let reason = if m.available {
                        None
                    } else {
                        match probe_resolved_command(m, &facts[j]) {
                            Ok(_) => None,
                            Err(e) => Some(e),
                        }
                    };
                    let entry = (m.duplicate(), reason);
                    proof {
                        assert(opt_reason(entry.1) == diagnostic_reason(rows[j as int], facts@[j as int]@));
                        assert(snapshot_rows(out@.push(entry)) =~= snapshot_rows(out@).push(m@));
                        assert(sv.take(i + 1) =~= sv.take(i as int).push(m@));
                    }
                    out.push(entry);
                    proof {
                        assert(out@[i as int] == entry);
                        assert(rows[j as int] == out@[i as int].0@);
                    }
                },
                None => {
                    proof {
                        let k = choose|k: int| 0 <= k < rows.len() && rows[k] == m@;
                        assert(rows[k].id == m@.id);
                    }
                },
            }
            i = i + 1;
        }
        assert(sv.take(sorted.len() as int) =~= sv);
        out
    }

    /// The rows whose CLI is to be looked for inside WSL, each with that
    /// CLI; none while WSL is off.
    pub fn wsl_probe_targets(&self) -> (r: Vec<(AgentMetadata, String)>)
        ensures
            !(self@.wsl_supported && self@.wsl_enabled) ==> r@.len() == 0,
            (self@.wsl_supported && self@.wsl_enabled) ==> r@.map_values(
                |e: (AgentMetadata, String)| (e.0@, e.1@),
            ) == probe_targets(self@.rows),
    {
        let mut out: Vec<(AgentMetadata, String)> = Vec::new();
        if !(self.wsl_supported && self.wsl_enabled) {
            return out;
        }
        let ghost s = agent_views(self.rows@);
        let mut i: usize = 0;
        assert(s.take(0) =~= Seq::<AgentV>::empty());
        assert(out@.map_values(|e: (AgentMetadata, String)| (e.0@, e.1@)) =~= Seq::<
            (AgentV, Seq<char>),
        >::empty());
        while i < self.rows.len()
            invariant
                s == agent_views(self.rows@),
                i <= self.rows.len(),
                out@.map_values(|e: (AgentMetadata, String)| (e.0@, e.1@)) == probe_targets(
                    s.take(i as int),
                ),
            decreases self.rows.len() - i,
        {
            assert(s.take(i + 1).drop_last() =~= s.take(i as int));
            assert(s.take(i + 1).last() == self.rows@[i as int]@);
            let m = &self.rows[i];
            if is_visible(m) && m.agent_type == AgentType::Acp {
                match wsl_cli_command(m) {
                    Some(c) => {
                        let pair = (m.duplicate(), c);
                        assert(out@.push(pair).map_values(|e: (AgentMetadata, String)| (e.0@, e.1@))
                            =~= out@.map_values(|e: (AgentMetadata, String)| (e.0@, e.1@)).push(
                            (pair.0@, pair.1@),
                        ));
                        out.push(pair);
                    },
                    None => {},
                }
            }
            i = i + 1;
        }
        assert(s.take(self.rows.len() as int) =~= s);
        out
    }

    /// Replace the WSL rows with those derived from each probed row's
    /// report (none while WSL is off), `detected_at` stamping them.
    pub fn apply_wsl_reports(
        &mut self,
        results: Vec<(AgentMetadata, WslProbeReport)>,
        detected_at: Option<u64>,
    )
        requires
            catalog_wf(old(self)@),
            forall|i: int| 0 <= i < results.len() ==> (#[trigger] results@[i]).0.sort_order < i64::MAX,
        ensures
            catalog_wf(final(self)@),
            final(self)@.rows == old(self)@.rows,
            final(self)@.wsl_supported == old(self)@.wsl_supported,
            final(self)@.wsl_enabled == old(self)@.wsl_enabled,
            !(old(self)@.wsl_supported && old(self)@.wsl_enabled) ==> final(self)@.wsl_rows.len() == 0,
            (old(self)@.wsl_supported && old(self)@.wsl_enabled) ==> final(self)@.wsl_rows
                == wsl_table(
                results@.map_values(|e: (AgentMetadata, WslProbeReport)| (e.0@, e.1@)),
                detected_at,
            ),
    {
        if !(self.wsl_supported && self.wsl_enabled) {
            self.wsl_rows = Vec::new();
            assert(self@.wsl_rows =~= Seq::<AgentV>::empty());
            return;
        }
        let ghost rv = results@.map_values(|e: (AgentMetadata, WslProbeReport)| (e.0@, e.1@));
        let mut table: Vec<AgentMetadata> = Vec::new();
        let mut i: usize = 0;
        assert(rv.take(0) =~= Seq::<(AgentV, ReportV)>::empty());
        assert(agent_views(table@) =~= Seq::<AgentV>::empty());
        while i < results.len()
            invariant
                rv == results@.map_values(|e: (AgentMetadata, WslProbeReport)| (e.0@, e.1@)),
                forall|k: int| 0 <= k < results.len() ==> (#[trigger] results@[k]).0.sort_order < i64::MAX,
                i <= results.len(),
                agent_views(table@) == wsl_table(rv.take(i as int), detected_at),
                ids_unique(agent_views(table@)),
            decreases results.len() - i,
        {
            assert(rv.take(i + 1).drop_last() =~= rv.take(i as int));
            assert(rv.take(i + 1).last() == (results@[i as int].0@, results@[i as int].1@));
            let derived = derive_wsl_rows(&results[i].0, &results[i].1, detected_at);
            let ghost before = agent_views(table@);
            let ghost dv = agent_views(derived@);
            let mut j: usize = 0;
            assert(dv.take(0) =~= Seq::<AgentV>::empty());
            while j < derived.len()
                invariant
                    dv == agent_views(derived@),
                    j <= derived.len(),
                    agent_views(table@) == upsert_all(before, dv.take(j as int)),
                    ids_unique(agent_views(table@)),
                decreases derived.len() - j,
            {
                assert(dv.take(j + 1).drop_last() =~= dv.take(j as int));
                assert(dv.take(j + 1).last() == derived@[j as int]@);
                let row = derived[j].duplicate();
                proof {
                    law_upsert_then_lookup(agent_views(table@), row@, row@.id);
                }
                upsert_row(&mut table, row);
                j = j + 1;
            }
            assert(dv.take(derived.len() as int) =~= dv);
            i = i + 1;
        }
        assert(rv.take(results.len() as int) =~= rv);
        self.wsl_rows = table;
    }
}


// ---------------------------------------------------------------------------
// Laws
// ---------------------------------------------------------------------------

proof fn lemma_visible_rows(s: Seq<AgentV>)
    ensures
        forall|i: int| 0 <= i < visible_rows(s).len() ==> visible(#[trigger] visible_rows(s)[i]),
        forall|i: int| 0 <= i < s.len() && visible(s[i]) ==> visible_rows(s).contains(#[trigger] s[i]),
    decreases s.len(),
{
    if s.len() > 0 {
        let d = s.drop_last();
        lemma_visible_rows(d);
        let v = visible_rows(s);
        let w = visible_rows(d);
        assert forall|i: int| 0 <= i < v.len() implies visible(#[trigger] v[i]) by {
            if i < w.len() {
                assert(v[i] == w[i]);
            }
        }
        assert forall|i: int| 0 <= i < s.len() && visible(s[i]) implies v.contains(#[trigger] s[i]) by {
            if i < d.len() {
                assert(d[i] == s[i]);
                let k = choose|k: int| 0 <= k < w.len() && w[k] == d[i];
                assert(v[k] == w[k]);
            } else {
                assert(v[v.len() - 1] == s[i]);
            }
        }
    }
}

/// A listing that holds the visible rows of both tables holds visible rows
/// only, and every visible row of either table.
pub proof fn law_listing_holds_exactly_visible_rows(rows: Seq<AgentV>, wsl: Seq<AgentV>, out: Seq<AgentV>)
    requires
        out.to_multiset() == (visible_rows(rows) + visible_rows(wsl)).to_multiset(),
    ensures
        forall|i: int| 0 <= i < out.len() ==> visible(#[trigger] out[i]),
        forall|i: int| 0 <= i < rows.len() && visible(rows[i]) ==> out.contains(#[trigger] rows[i]),
        forall|i: int| 0 <= i < wsl.len() && visible(wsl[i]) ==> out.contains(#[trigger] wsl[i]),
{
    lemma_visible_rows(rows);
    lemma_visible_rows(wsl);
    let both = visible_rows(rows) + visible_rows(wsl);
    assert forall|i: int| 0 <= i < out.len() implies visible(#[trigger] out[i]) by {
        assert(out.to_multiset().count(out[i]) > 0);
        assert(both.contains(out[i]));
        let k = choose|k: int| 0 <= k < both.len() && both[k] == out[i];
        if k < visible_rows(rows).len() {
            assert(both[k] == visible_rows(rows)[k]);
        } else {
            assert(both[k] == visible_rows(wsl)[k - visible_rows(rows).len()]);
        }
    }
    assert forall|i: int| 0 <= i < rows.len() && visible(rows[i]) implies out.contains(#[trigger] rows[i]) by {
        assert(visible_rows(rows).contains(rows[i]));
        let k = choose|k: int| 0 <= k < visible_rows(rows).len() && visible_rows(rows)[k] == rows[i];
        assert(both[k] == rows[i]);
        assert(both.to_multiset().count(rows[i]) > 0);
    }
    assert forall|i: int| 0 <= i < wsl.len() && visible(wsl[i]) implies out.contains(#[trigger] wsl[i]) by {
        assert(visible_rows(wsl).contains(wsl[i]));
        let k = choose|k: int| 0 <= k < visible_rows(wsl).len() && visible_rows(wsl)[k] == wsl[i];
        assert(both[k + visible_rows(rows).len()] == wsl[i]);
        assert(both.to_multiset().count(wsl[i]) > 0);
    }
}

/// A derived WSL row keeps the backend of its base row, under an id of its
/// own, with a WSL runtime scoped to the distro.
pub proof fn law_derived_row_identity(
    base: AgentV,
    distro: DistroV,
    cli: CliProbeV,
    found: Seq<char>,
    detected_at: Option<u64>,
)
    ensures
        derived_row(base, distro, cli, found, detected_at).id != base.id,
        derived_row(base, distro, cli, found, detected_at).backend == base.backend,
        derived_row(base, distro, cli, found, detected_at).runtime->Some_0.kind == "wsl"@,
        derived_row(base, distro, cli, found, detected_at).runtime_scope_id == Some("wsl:"@
            + distro.name),
        derived_row(base, distro, cli, found, detected_at).available,
{
    let d = derived_row(base, distro, cli, found, detected_at);
    assert(d.id.len() > base.id.len()) by {
        reveal_strlit(":wsl:");
    }
}

pub open spec fn slug_char(c: char) -> bool {
    ('a' <= c <= 'z') || ('0' <= c <= '9') || c == '-'
}

proof fn lemma_slug_raw_shape(s: Seq<char>)
    ensures
        forall|i: int| 0 <= i < slug_raw(s).len() ==> slug_char(#[trigger] slug_raw(s)[i]),
        forall|i: int|
            0 <= i < slug_raw(s).len() - 1 ==> !(#[trigger] slug_raw(s)[i] == '-' && slug_raw(s)[i
                + 1] == '-'),
    decreases s.len(),
{
    if s.len() > 0 {
        lemma_slug_raw_shape(s.drop_last());
        let p = slug_raw(s.drop_last());
        let r = slug_raw(s);
        assert forall|i: int| 0 <= i < r.len() implies slug_char(#[trigger] r[i]) by {
            if i < p.len() {
                assert(r[i] == p[i]);
            }
        }
        assert forall|i: int| 0 <= i < r.len() - 1 implies !(#[trigger] r[i] == '-' && r[i + 1]
            == '-') by {
            if i < p.len() - 1 {
                assert(r[i] == p[i] && r[i + 1] == p[i + 1]);
            } else if i == p.len() - 1 {
                assert(r[i] == p[i]);
            }
        }
    }
}

proof fn lemma_trim_start_offset(s: Seq<char>) -> (a: int)
    ensures
        0 <= a <= s.len(),
        trim_dashes_start(s) == s.subrange(a, s.len() as int),
        a < s.len() ==> s[a] != '-',
    decreases s.len(),
{
    if s.len() > 0 && s[0] == '-' {
        let t = s.drop_first();
        let a1 = lemma_trim_start_offset(t);
        assert(t.subrange(a1, t.len() as int) =~= s.subrange(a1 + 1, s.len() as int));
        if a1 < t.len() {
            assert(t[a1] == s[a1 + 1]);
        }
        a1 + 1
    } else {
        assert(s.subrange(0, s.len() as int) =~= s);
        0
    }
}

proof fn lemma_trim_end_offset(s: Seq<char>) -> (b: int)
    ensures
        0 <= b <= s.len(),
        trim_dashes_end(s) == s.subrange(0, b),
        b > 0 ==> s[b - 1] != '-',
    decreases s.len(),
{
    if s.len() > 0 && s.last() == '-' {
        let t = s.drop_last();
        let b1 = lemma_trim_end_offset(t);
        assert(t.subrange(0, b1) =~= s.subrange(0, b1));
        if b1 > 0 {
            assert(t[b1 - 1] == s[b1 - 1]);
        }
        b1
    } else {
        assert(s.subrange(0, s.len() as int) =~= s);
        s.len() as int
    }
}

proof fn lemma_trim_dashes_sub(s: Seq<char>) -> (ab: (int, int))
    ensures
        0 <= ab.0 <= ab.1 <= s.len(),
        trim_dashes_end(trim_dashes_start(s)) == s.subrange(ab.0, ab.1),
        trim_dashes_end(trim_dashes_start(s)).len() > 0 ==> trim_dashes_end(trim_dashes_start(s))[0]
            != '-' && trim_dashes_end(trim_dashes_start(s)).last() != '-',
{
    let a = lemma_trim_start_offset(s);
    let t = s.subrange(a, s.len() as int);
    let b = lemma_trim_end_offset(t);
    assert(t.subrange(0, b) =~= s.subrange(a, a + b));
    let r = t.subrange(0, b);
    if r.len() > 0 {
        assert(r[0] == t[0]);
        assert(r.last() == t[b - 1]);
    }
    (a, a + b)
}

/// A distro's scope slug is never empty, holds only lower-case letters,
/// digits and single dashes, and neither starts nor ends with a dash.
pub proof fn law_scope_slug_shape(name: Seq<char>)
    ensures
        scope_slug(name).len() > 0,
        forall|i: int| 0 <= i < scope_slug(name).len() ==> slug_char(#[trigger] scope_slug(name)[i]),
        forall|i: int|
            0 <= i < scope_slug(name).len() - 1 ==> !(#[trigger] scope_slug(name)[i] == '-'
                && scope_slug(name)[i + 1] == '-'),
        scope_slug(name)[0] != '-',
        scope_slug(name).last() != '-',
{
    reveal_strlit("default");
    let r = slug_raw(name);
    lemma_slug_raw_shape(name);
    let (a, b) = lemma_trim_dashes_sub(r);
    let t = trim_dashes_end(trim_dashes_start(r));
    if t.len() > 0 {
        assert forall|i: int| 0 <= i < t.len() implies slug_char(#[trigger] t[i]) by {
            assert(t[i] == r[a + i]);
        }
        assert forall|i: int| 0 <= i < t.len() - 1 implies !(#[trigger] t[i] == '-' && t[i + 1]
            == '-') by {
            assert(t[i] == r[a + i]);
            assert(t[i + 1] == r[a + i + 1]);
        }
    }
}

/// While WSL is off (always so on a host without WSL support) there is no
/// WSL row, and every lookup answers from the native rows.
pub proof fn law_wsl_off_means_native_only(c: CatalogV, id: Seq<char>)
    requires
        catalog_wf(c),
        !c.wsl_enabled,
    ensures
        c.wsl_rows.len() == 0,
        catalog_get(c, id) == lookup(c.rows, id),
        !c.wsl_supported ==> !c.wsl_enabled,
{
}

/// A disabled row is never available; an enabled internal row without a
/// command always is; any other row is available exactly when its command
/// resolved.
pub proof fn law_availability_rule(m: AgentV, f: FactsV)
    ensures
        !m.enabled ==> !probed_row(m, resolve_row(m, f)).available,
        (m.enabled && m.command is None && m.agent_source == AgentSource::Internal) ==> probed_row(
            m,
            resolve_row(m, f),
        ).available,
        !(m.enabled && m.command is None && m.agent_source == AgentSource::Internal) ==> (probed_row(
            m,
            resolve_row(m, f),
        ).available <==> resolve_row(m, f) is Ok),
        probed_row(m, resolve_row(m, f)).id == m.id,
{
}

/// In a diagnostic listing of probed rows, a row carries a reason exactly
/// when it is unavailable.
pub proof fn law_reason_iff_unavailable(m: AgentV, f: FactsV)
    ensures
        diagnostic_reason(probed_row(m, resolve_row(m, f)), f) is Some <==> !probed_row(
            m,
            resolve_row(m, f),
        ).available,
{
    let p = probed_row(m, resolve_row(m, f));
    assert(resolve_row(p, f) == resolve_row(m, f));
}

/// A row is never resolved when the primary binary it names is not found:
/// whenever resolving succeeds, the primary binary (if named) resolved on
/// the host, managed builtin rows included. A row resolved without a
/// managed tool resolves to where its spawn command was found.
pub proof fn law_resolved_rows_have_their_primary(m: AgentV, f: FactsV)
    ensures
        resolve_row(m, f) is Ok ==> (m.agent_source_info.binary_name matches Some(p) ==> resolve_in(
            f.lookups,
            p,
        ) is Some),
        resolve_row(m, f) is Ok ==> m.enabled,
        (resolve_row(m, f) is Ok && !(m.agent_source == AgentSource::Builtin && m.backend is Some
            && f.managed is Some)) ==> (m.command matches Some(c) && resolve_in(f.lookups, c)
            == Some(resolve_row(m, f)->Ok_0)),
{
}

/// A WSL row records where the probe found the CLI: its runtime's CLI path
/// and its resolved command are the found path, and there is no row when
/// the probe found none.
pub proof fn law_derived_row_records_found_path(
    base: AgentV,
    distro: DistroV,
    cli: CliProbeV,
    detected_at: Option<u64>,
)
    ensures
        derive_row_spec(base, distro, cli, detected_at) is Some <==> cli.found_path is Some,
        derive_row_spec(base, distro, cli, detected_at) matches Some(r) ==> {
            &&& r.runtime is Some
            &&& r.runtime->Some_0.cli_path == cli.found_path
            &&& r.resolved_command == cli.found_path
            &&& r.command == Some(cli.command)
            &&& r.runtime->Some_0.distro == Some(distro.name)
            &&& r.runtime->Some_0.state == Some(distro.state)
            &&& r.runtime->Some_0.version == distro.version
            &&& r.runtime->Some_0.detected_at == detected_at
            &&& r.runtime->Some_0.probe_mode == Some(cli.probe_mode)
            &&& r.available
            &&& r.enabled == base.enabled
            &&& r.agent_type == base.agent_type
            &&& (base.sort_order < i64::MAX ==> r.sort_order == base.sort_order + 1)
        },
{
}

} // verus!
