//! Autostart registration decisions: the exact scheduler arguments, and how
//! the scheduler's outcome is read back.

use vstd::prelude::*;
use vstd::string::StringExecFns;
use crate::text::{chars_vec, contains_chars, contains_sub};

verus! {

/// The name of the one scheduled task the engine owns.
pub open spec fn task_name_spec() -> Seq<char> {
    "MindfulBlockerAutostart"@
}

pub fn autostart_task_name() -> (r: String)
    ensures
        r@ == task_name_spec(),
{
    "MindfulBlockerAutostart".to_owned()
}

/// The scheduler arguments that ask whether the task exists.
pub open spec fn query_args_spec() -> Seq<Seq<char>> {
    seq!["/Query"@, "/TN"@, task_name_spec()]
}

/// The scheduler arguments that create, or forcibly replace, the logon task
/// for the given executable, at the highest run level. The force flag is what
/// makes a second enable replace the task rather than duplicate it.
pub open spec fn create_args_spec(exe: Seq<char>) -> Seq<Seq<char>> {
    seq![
        "/Create"@,
        "/F"@,
        "/SC"@,
        "ONLOGON"@,
        "/RL"@,
        "HIGHEST"@,
        "/TN"@,
        task_name_spec(),
        "/TR"@,
        "'"@ + exe + "'"@,
    ]
}

/// The scheduler arguments that forcibly delete the task.
pub open spec fn delete_args_spec() -> Seq<Seq<char>> {
    seq!["/Delete"@, "/F"@, "/TN"@, task_name_spec()]
}

pub fn query_args() -> (v: Vec<String>)
    ensures
        v.deep_view() == query_args_spec(),
{
    let mut v: Vec<String> = Vec::new();
    v.push("/Query".to_owned());
    v.push("/TN".to_owned());
    v.push(autostart_task_name());
    proof {
        assert(v.deep_view() =~= query_args_spec());
    }
    v
}

pub fn create_args(exe: &str) -> (v: Vec<String>)
    ensures
        v.deep_view() == create_args_spec(exe@),
{
    let mut v: Vec<String> = Vec::new();
    v.push("/Create".to_owned());
    v.push("/F".to_owned());
    v.push("/SC".to_owned());
    v.push("ONLOGON".to_owned());
    v.push("/RL".to_owned());
    v.push("HIGHEST".to_owned());
    v.push("/TN".to_owned());
    v.push(autostart_task_name());
    v.push("/TR".to_owned());
    let mut quoted = "'".to_owned();
    quoted.append(exe);
    quoted.append("'");
    v.push(quoted);
    proof {
        assert(v.deep_view() =~= create_args_spec(exe@));
    }
    v
}

pub fn delete_args() -> (v: Vec<String>)
    ensures
        v.deep_view() == delete_args_spec(),
{
    let mut v: Vec<String> = Vec::new();
    v.push("/Delete".to_owned());
    v.push("/F".to_owned());
    v.push("/TN".to_owned());
    v.push(autostart_task_name());
    proof {
        assert(v.deep_view() =~= delete_args_spec());
    }
    v
}

/// The scheduler's wording when a task to delete does not exist.
pub open spec fn not_found_msg() -> Seq<char> {
    "The specified task name was not found"@
}

/// Reads the outcome of creating the task: success enables autostart, any
/// failure surfaces the scheduler's own words.
pub fn interpret_create(success: bool, stderr: &str) -> (r: Result<String, String>)
    ensures
        success ==> r is Ok && r->Ok_0@ == "Enabled Admin Autostart"@,
        !success ==> r is Err && r->Err_0@ == "Failed to create task: "@ + stderr@,
{
    if success {
        Ok("Enabled Admin Autostart".to_owned())
    } else {
        let mut msg = "Failed to create task: ".to_owned();
        msg.append(stderr);
        Err(msg)
    }
}

/// Reads the outcome of deleting the task: success disables autostart, a
/// missing task counts as already disabled, any other failure surfaces the
/// scheduler's own words.
pub fn interpret_delete(success: bool, stderr: &str) -> (r: Result<String, String>)
    ensures
        success ==> r is Ok && r->Ok_0@ == "Disabled Admin Autostart"@,
        !success && contains_sub(stderr@, not_found_msg()) ==> r is Ok && r->Ok_0@
            == "Disabled (Task was already missing)"@,
        !success && !contains_sub(stderr@, not_found_msg()) ==> r is Err && r->Err_0@
            == "Failed to delete task: "@ + stderr@,
{
    if success {
        return Ok("Disabled Admin Autostart".to_owned());
    }
    let hay = chars_vec(stderr);
    let needle = chars_vec("The specified task name was not found");
    if contains_chars(&hay, &needle) {
        Ok("Disabled (Task was already missing)".to_owned())
    } else {
        let mut msg = "Failed to delete task: ".to_owned();
        msg.append(stderr);
        Err(msg)
    }
}

/// The wording of the refusal on platforms without the task scheduler.
pub fn unsupported_platform() -> (r: String)
    ensures
        r@ == "Only supported on Windows"@,
{
    "Only supported on Windows".to_owned()
}

} // verus!
