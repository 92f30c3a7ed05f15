//! Hosts-file path resolution: the caller reports the platform, the system
//! directory and whether the redirector path exists; the decision is here.

use vstd::prelude::*;
use vstd::string::StringExecFns;

verus! {

/// The redirector path that a 32-bit process must prefer on 64-bit hosts.
pub open spec fn sysnative_path_spec(win_dir: Seq<char>) -> Seq<char> {
    win_dir + "\\sysnative\\drivers\\etc\\hosts"@
}

/// The standard system path to the hosts file.
pub open spec fn system32_path_spec(win_dir: Seq<char>) -> Seq<char> {
    win_dir + "\\System32\\drivers\\etc\\hosts"@
}

/// The path the engine edits: on the Windows family the redirector path when
/// it exists on disk, else the standard one; elsewhere the canonical path.
pub open spec fn hosts_path_spec(
    windows: bool,
    win_dir: Seq<char>,
    sysnative_exists: bool,
) -> Seq<char> {
    if windows {
        if sysnative_exists {
            sysnative_path_spec(win_dir)
        } else {
            system32_path_spec(win_dir)
        }
    } else {
        "/etc/hosts"@
    }
}

/// The redirector candidate whose existence the caller probes.
pub fn sysnative_candidate(win_dir: &str) -> (p: String)
    ensures
        p@ == sysnative_path_spec(win_dir@),
{
    let mut p = win_dir.to_owned();
    p.append("\\sysnative\\drivers\\etc\\hosts");
    p
}

/// Resolves the hosts-file path from the probe's outcome.
pub fn resolve_hosts_path(windows: bool, win_dir: &str, sysnative_exists: bool) -> (p: String)
    ensures
        p@ == hosts_path_spec(windows, win_dir@, sysnative_exists),
{
    if windows {
        if sysnative_exists {
            sysnative_candidate(win_dir)
        } else {
            let mut p = win_dir.to_owned();
            p.append("\\System32\\drivers\\etc\\hosts");
            p
        }
    } else {
        "/etc/hosts".to_owned()
    }
}

} // verus!
