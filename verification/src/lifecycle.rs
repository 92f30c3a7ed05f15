//! Process-wide state and the rule-application entry point: the friction
//! cache is rebuilt unconditionally, the hosts-file edit happens only under
//! privilege.

use vstd::prelude::*;
use crate::reconcile::{reconcile, reconcile_spec};
use crate::rules::{build_friction_cache, cache_matches, BlockRule, CachedRule};

verus! {

/// Process-wide state: the clean-on-exit flag, the friction cache the query
/// server reads, and the configured language tag.
pub struct AppState {
    pub clean_on_exit: bool,
    pub cached_rules: Vec<CachedRule>,
    pub language: String,
}

impl AppState {
    /// A fresh state: no cleanup on exit, an empty cache, the given language.
    pub fn new(language: String) -> (s: AppState)
        ensures
            s.clean_on_exit == false,
            s.cached_rules@.len() == 0,
            s.language == language,
    {
        AppState { clean_on_exit: false, cached_rules: Vec::new(), language }
    }
}

/// Why a rule application did not touch the hosts file.
#[derive(Debug)]
pub enum ApplyError {
    /// The process lacks elevation; the caller must relaunch elevated.
    AdminRequired,
}

impl ApplyError {
    /// The machine-checkable token the caller branches on.
    pub fn token(&self) -> (r: String)
        ensures
            r@ == "ADMIN_REQUIRED"@,
    {
        "ADMIN_REQUIRED".to_owned()
    }
}

/// Flips the clean-on-exit flag and nothing else.
pub fn set_clean_on_exit(state: &mut AppState, enabled: bool)
    ensures
        final(state).clean_on_exit == enabled,
        final(state).cached_rules == old(state).cached_rules,
        final(state).language == old(state).language,
{
    state.clean_on_exit = enabled;
}

/// Applies a rule set: always rebuilds the friction cache and stores the
/// language; computes the new hosts-file content only when privileged, and
/// otherwise reports that elevation is required. The caller reads the hosts
/// file before and writes the returned content after.
pub fn apply_blocking_rules(
    state: &mut AppState,
    rules: &Vec<BlockRule>,
    language: String,
    privileged: bool,
    existing: &str,
) -> (r: Result<String, ApplyError>)
    ensures
        final(state).clean_on_exit == old(state).clean_on_exit,
        final(state).language == language,
        cache_matches(final(state).cached_rules@, rules@),
        privileged ==> r is Ok && r->Ok_0@ == reconcile_spec(existing@, rules@),
        !privileged ==> r is Err && r->Err_0 is AdminRequired,
{
    state.cached_rules = build_friction_cache(rules);
    state.language = language;
    if !privileged {
        return Err(ApplyError::AdminRequired);
    }
    Ok(reconcile(existing, rules))
}

} // verus!
