//! The local query server's decision logic: request routing and the snapshot
//! of the friction cache that a response carries.

use vstd::prelude::*;
use crate::lifecycle::AppState;
use crate::rules::CachedRule;
use crate::text::str_eq;

verus! {

/// What the server does with a request.
#[derive(Clone, Copy, Debug, PartialEq, Eq, Structural)]
pub enum Route {
    /// The pre-flight method: only the cross-origin headers, no body.
    Preflight,
    /// The cache and language snapshot.
    Rules,
    /// A one-way event report, forwarded and acknowledged.
    Report,
    /// Anything else.
    NotFound,
}

/// The routing rule: the pre-flight method first, then the two resources,
/// everything else is not found.
pub open spec fn route_spec(method: Seq<char>, url: Seq<char>) -> Route {
    if method == "OPTIONS"@ {
        Route::Preflight
    } else if method == "GET"@ && url == "/rules"@ {
        Route::Rules
    } else if method == "POST"@ && url == "/report"@ {
        Route::Report
    } else {
        Route::NotFound
    }
}

/// Routes one request by method and path.
pub fn route_request(method: &str, url: &str) -> (r: Route)
    ensures
        r == route_spec(method@, url@),
{
    if str_eq(method, "OPTIONS") {
        Route::Preflight
    } else if str_eq(method, "GET") && str_eq(url, "/rules") {
        Route::Rules
    } else if str_eq(method, "POST") && str_eq(url, "/report") {
        Route::Report
    } else {
        Route::NotFound
    }
}

/// The fixed acknowledgement body of a report.
pub fn report_ack() -> (r: String)
    ensures
        r@ == "{\"status\":\"ok\"}"@,
{
    "{\"status\":\"ok\"}".to_owned()
}

/// Copies the cache and language out of the state, as the server thread does
/// under the lock before answering: the snapshot matches the state field for
/// field.
pub fn rules_snapshot(state: &AppState) -> (r: (Vec<CachedRule>, String))
    ensures
        r.0@.len() == state.cached_rules@.len(),
        forall|i: int|
            0 <= i < r.0@.len() ==> (#[trigger] r.0@[i]).domain@ == state.cached_rules@[i].domain@
                && r.0@[i].mode == state.cached_rules@[i].mode,
        r.1@ == state.language@,
{
    let mut cache: Vec<CachedRule> = Vec::new();
    let mut i: usize = 0;
    while i < state.cached_rules.len()
        invariant
            i <= state.cached_rules@.len(),
            cache@.len() == i,
            forall|k: int|
                0 <= k < i ==> (#[trigger] cache@[k]).domain@ == state.cached_rules@[k].domain@
                    && cache@[k].mode == state.cached_rules@[k].mode,
        decreases state.cached_rules@.len() - i,
    {
        let entry = CachedRule {
            domain: state.cached_rules[i].domain.clone(),
            mode: state.cached_rules[i].mode,
        };
        cache.push(entry);
        i = i + 1;
    }
    (cache, state.language.clone())
}

} // verus!
