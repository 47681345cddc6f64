//! The ACP health check: it answers from the catalog's resolved
//! availability instead of probing a bare command again, so managed rows
//! and WSL rows are judged by the same checks that feed the agent listing.
use vstd::prelude::*;
use crate::agent::{AgentMetadata, AgentV};
use crate::registry::{
    catalog_get, first_builtin_at, is_builtin_of, row_before, sorted_rows, visible_rows,
    AgentCatalog, CatalogV,
};
use crate::text::{append_str, chars_of, string_from_chars, trim, trim_chars};
use crate::wsl::opt_text;

verus! {

broadcast use vstd::seq_lib::group_to_multiset_ensures;

/// Which row to check: by backend, optionally pinned to one agent id or to
/// one runtime scope (`wsl:<distro>`).
pub struct AcpHealthCheckRequest {
    pub backend: String,
    pub agent_id: Option<String>,
    pub runtime_scope_id: Option<String>,
}

pub struct AcpHealthCheckResponse {
    pub available: bool,
    /// Milliseconds spent finding the row; none when no row was found.
    pub latency: Option<u64>,
    pub error: Option<String>,
}

pub struct RequestV {
    pub backend: Seq<char>,
    pub agent_id: Option<Seq<char>>,
    pub runtime_scope_id: Option<Seq<char>>,
}

pub struct ResponseV {
    pub available: bool,
    pub latency: Option<u64>,
    pub error: Option<Seq<char>>,
}

impl View for AcpHealthCheckRequest {
    type V = RequestV;

    open spec fn view(&self) -> RequestV {
        RequestV {
            backend: self.backend@,
            agent_id: opt_text(self.agent_id),
            runtime_scope_id: opt_text(self.runtime_scope_id),
        }
    }
}

impl View for AcpHealthCheckResponse {
    type V = ResponseV;

    open spec fn view(&self) -> ResponseV {
        ResponseV { available: self.available, latency: self.latency, error: opt_text(self.error) }
    }
}

pub open spec fn opt_agent(o: Option<AgentMetadata>) -> Option<AgentV> {
    match o {
        Some(m) => Some(m@),
        None => None,
    }
}

/// The value, unless it is absent or blank.
pub open spec fn nonblank(o: Option<Seq<char>>) -> Option<Seq<char>> {
    match o {
        Some(v) => if trim(v).len() > 0 {
            Some(v)
        } else {
            None
        },
        None => None,
    }
}

/// A row answers a request when its backend is the requested one and, if a
/// runtime scope is given, its scope is that scope.
pub open spec fn row_matches(m: AgentV, r: RequestV) -> bool {
    &&& m.backend == Some(r.backend)
    &&& match nonblank(r.runtime_scope_id) {
        Some(scope) => m.runtime_scope_id == Some(scope),
        None => true,
    }
}

/// The visible rows, native then WSL.
pub open spec fn listed(c: CatalogV) -> Seq<AgentV> {
    visible_rows(c.rows) + visible_rows(c.wsl_rows)
}

/// `m` is a listed row that answers `r`, and no such row sorts before it.
pub open spec fn first_listed_match(c: CatalogV, r: RequestV, m: AgentV) -> bool {
    &&& listed(c).contains(m)
    &&& row_matches(m, r)
    &&& forall|x: AgentV| listed(c).contains(x) && row_matches(x, r) ==> !row_before(x, m)
}

pub open spec fn some_listed_match(c: CatalogV, r: RequestV) -> bool {
    exists|i: int| 0 <= i < listed(c).len() && row_matches(#[trigger] listed(c)[i], r)
}

/// The row a health check answers from:
/// - for an agent id, that row, if it answers the request;
/// - else the first listed row (by sort order) that answers it;
/// - else nothing when a runtime scope was asked for;
/// - else the first builtin native row of the backend.
pub open spec fn health_row_ok(c: CatalogV, r: RequestV, row: Option<AgentV>) -> bool {
    match nonblank(r.agent_id) {
        Some(id) => row == match catalog_get(c, id) {
            Some(m) => if row_matches(m, r) {
                Some(m)
            } else {
                None
            },
            None => None,
        },
        None => if some_listed_match(c, r) {
            row matches Some(m) && first_listed_match(c, r, m)
        } else if nonblank(r.runtime_scope_id) is Some {
            row is None
        } else {
            match row {
                Some(m) => exists|i: int|
                    first_builtin_at(c.rows, r.backend, i) && #[trigger] c.rows[i] == m,
                None => !exists|i: int|
                    0 <= i < c.rows.len() && is_builtin_of(#[trigger] c.rows[i], r.backend),
            }
        },
    }
}

pub open spec fn no_row_message(backend: Seq<char>) -> Seq<char> {
    "No available agent_metadata row for backend '"@ + backend + "'"@
}

pub open spec fn disabled_message(name: Seq<char>) -> Seq<char> {
    "Agent '"@ + name + "' is disabled"@
}

pub open spec fn unavailable_message(name: Seq<char>) -> Seq<char> {
    "Agent '"@ + name + "' is unavailable"@
}

/// The answer for a request, given the row found (if any) and the time it
/// took to find it.
pub open spec fn health_answer(r: RequestV, row: Option<AgentV>, latency_ms: u64) -> ResponseV {
    match row {
        None => ResponseV {
            available: false,
            latency: None,
            error: Some(no_row_message(r.backend)),
        },
        Some(m) => {
            let ok = m.enabled && m.available;
            ResponseV {
                available: ok,
                latency: Some(latency_ms),
                error: if ok {
                    None
                } else if !m.enabled {
                    Some(disabled_message(m.name))
                } else {
                    Some(unavailable_message(m.name))
                },
            }
        },
    }
}

fn nonblank_text(o: &Option<String>) -> (r: Option<&String>)
    ensures
        match (r, nonblank(opt_text(*o))) {
            (Some(a), Some(b)) => a@ == b,
            (None, None) => true,
            _ => false,
        },
{
    match o {
        Some(v) => {
            let cs = chars_of(v.as_str());
            let t = trim_chars(cs.as_slice());
            if t.len() > 0 {
                Some(v)
            } else {
                None
            }
        },
        None => None,
    }
}

fn same_text(a: &str, b: &str) -> (r: bool)
    ensures
        r == (a@ == b@),
{
    let x = chars_of(a);
    let y = chars_of(b);
    crate::text::eq_chars(x.as_slice(), y.as_slice())
}

fn row_matches_request(meta: &AgentMetadata, req: &AcpHealthCheckRequest) -> (r: bool)
    ensures
        r == row_matches(meta@, req@),
{
    let backend_ok = match &meta.backend {
        Some(b) => same_text(b.as_str(), req.backend.as_str()),
        None => false,
    };
    if !backend_ok {
        return false;
    }
    match nonblank_text(&req.runtime_scope_id) {
        Some(scope) => match &meta.runtime_scope_id {
            Some(s) => same_text(s.as_str(), scope.as_str()),
            None => false,
        },
        None => true,
    }
}

proof fn lemma_row_before_irreflexive(m: AgentV)
    ensures
        !row_before(m, m),
{
    crate::registry::lemma_text_lt_irreflexive(m.name);
}

/// Finds the row a health check answers from.
pub fn resolve_health_row(catalog: &AgentCatalog, req: &AcpHealthCheckRequest) -> (r: Option<
    AgentMetadata,
>)
    ensures
        health_row_ok(catalog@, req@, opt_agent(r)),
{
    if let Some(id) = nonblank_text(&req.agent_id) {
        return match catalog.get(id.as_str()) {
            Some(m) => if row_matches_request(&m, req) {
                Some(m)
            } else {
                None
            },
            None => None,
        };
    }
    let listing = catalog.list_all();
    let ghost lv = crate::agent::agent_views(listing@);
    let ghost both = listed(catalog@);
    let mut i: usize = 0;
    while i < listing.len()
        invariant
            lv == crate::agent::agent_views(listing@),
            both == listed(catalog@),
            nonblank(req@.agent_id) is None,
            lv.to_multiset() == both.to_multiset(),
            sorted_rows(lv),
            i <= listing.len(),
            forall|k: int| 0 <= k < i ==> !row_matches(#[trigger] lv[k], req@),
        decreases listing.len() - i,
    {
        if row_matches_request(&listing[i], req) {
            let m = listing[i].duplicate();
            proof {
                assert(lv[i as int] == m@);
                assert(lv.contains(m@));
                assert(lv.to_multiset().count(m@) > 0);
                assert(both.contains(m@));
                let idx = choose|idx: int| 0 <= idx < both.len() && both[idx] == m@;
                assert(row_matches(both[idx], req@));
                assert(some_listed_match(catalog@, req@));
                assert forall|x: AgentV| both.contains(x) && row_matches(x, req@) implies !row_before(
                    x,
                    m@,
                ) by {
                    assert(both.to_multiset().count(x) > 0);
                    assert(lv.contains(x));
                    let j = choose|j: int| 0 <= j < lv.len() && lv[j] == x;
                    if j == i {
                        lemma_row_before_irreflexive(m@);
                    } else {
                        assert(j > i);
                        assert(sorted_rows(lv));
                        assert(!row_before(lv[j], lv[i as int]));
                    }
                }
            }
            return Some(m);
        }
        i = i + 1;
    }
    proof {
        if some_listed_match(catalog@, req@) {
            let k = choose|k: int| 0 <= k < both.len() && row_matches(#[trigger] both[k], req@);
            assert(both.contains(both[k]));
            assert(lv.to_multiset().count(both[k]) > 0);
            let j = choose|j: int| 0 <= j < lv.len() && lv[j] == both[k];
            assert(!row_matches(lv[j], req@));
        }
    }
    if nonblank_text(&req.runtime_scope_id).is_some() {
        return None;
    }
    match catalog.find_builtin_by_backend(req.backend.as_str()) {
        Some(m) => {
            proof {
                let k = choose|k: int|
                    first_builtin_at(catalog@.rows, req@.backend, k) && #[trigger] catalog@.rows[k]
                        == m@;
                assert(is_builtin_of(m@, req@.backend));
            }
            if row_matches_request(&m, req) {
                Some(m)
            } else {
                None
            }
        },
        None => None,
    }
}

fn quoted_message(prefix: &str, value: &str, suffix: &str) -> (r: String)
    ensures
        r@ == prefix@ + value@ + suffix@,
{
    let mut out: Vec<char> = Vec::new();
    append_str(&mut out, prefix);
    append_str(&mut out, value);
    append_str(&mut out, suffix);
    string_from_chars(out.as_slice())
}

/// The answer for `req` from the row found for it (if any), with the time
/// it took to find it.
pub fn health_response(req: &AcpHealthCheckRequest, row: Option<AgentMetadata>, latency_ms: u64) -> (r:
    AcpHealthCheckResponse)
    ensures
        r@ == health_answer(req@, opt_agent(row), latency_ms),
{
    match row {
        None => AcpHealthCheckResponse {
            available: false,
            latency: None,
            error: Some(
                quoted_message(
                    "No available agent_metadata row for backend '",
                    req.backend.as_str(),
                    "'",
                ),
            ),
        },
        Some(meta) => {
            let available = meta.enabled && meta.available;
            let error = if available {
                None
            } else if !meta.enabled {
                Some(quoted_message("Agent '", meta.name.as_str(), "' is disabled"))
            } else {
                Some(quoted_message("Agent '", meta.name.as_str(), "' is unavailable"))
            };
            AcpHealthCheckResponse { available, latency: Some(latency_ms), error }
        },
    }
}

/// The health check of an ACP backend, answered from the catalog.
/// `latency_ms` is the time the caller measured for finding the row.
pub fn health_check(catalog: &AgentCatalog, req: &AcpHealthCheckRequest, latency_ms: u64) -> (r:
    AcpHealthCheckResponse)
    ensures
        exists|row: Option<AgentV>|
            health_row_ok(catalog@, req@, row) && r@ == #[trigger] health_answer(
                req@,
                row,
                latency_ms,
            ),
{
    let row = resolve_health_row(catalog, req);
    let ghost found = opt_agent(row);
    let r = health_response(req, row, latency_ms);
    assert(health_row_ok(catalog@, req@, found) && r@ == health_answer(req@, found, latency_ms));
    r
}

/// The row a health check answers from always has the requested backend
/// and, when a runtime scope is asked for, that scope: a check never falls
/// back to a row of another backend or scope.
pub proof fn law_health_row_answers_request(c: CatalogV, r: RequestV, m: AgentV)
    requires
        health_row_ok(c, r, Some(m)),
    ensures
        m.backend == Some(r.backend),
        nonblank(r.runtime_scope_id) matches Some(scope) ==> m.runtime_scope_id == Some(scope),
{
    if nonblank(r.agent_id) is None && !some_listed_match(c, r) && nonblank(r.runtime_scope_id) is None {
        let i = choose|i: int| first_builtin_at(c.rows, r.backend, i) && #[trigger] c.rows[i] == m;
        assert(is_builtin_of(c.rows[i], r.backend));
    }
}

/// A health answer reports success exactly when it carries no error, and
/// success needs a row that is both enabled and available.
pub proof fn law_health_available_iff_no_error(r: RequestV, row: Option<AgentV>, latency_ms: u64)
    ensures
        health_answer(r, row, latency_ms).available <==> health_answer(r, row, latency_ms).error is None,
        health_answer(r, row, latency_ms).available <==> (row matches Some(m) && m.enabled && m.available),
        health_answer(r, row, latency_ms).latency is Some <==> row is Some,
{
}

} // verus!
