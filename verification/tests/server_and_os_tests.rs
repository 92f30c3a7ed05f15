use mindfulblock::autostart::{
    autostart_task_name, create_args, delete_args, interpret_create, interpret_delete, query_args,
    unsupported_platform,
};
use mindfulblock::lifecycle::{apply_blocking_rules, AppState};
use mindfulblock::paths::{resolve_hosts_path, sysnative_candidate};
use mindfulblock::rules::{BlockRule, Mode};
use mindfulblock::server::{report_ack, route_request, rules_snapshot, Route};

#[test]
fn query_server_scenario() {
    let mut state = AppState::new("vi".to_string());
    let rules = vec![BlockRule { domain: "x.com".to_string(), is_active: true, mode: Mode::Friction }];
    // no privilege: the cache must still serve the extension
    let _ = apply_blocking_rules(&mut state, &rules, "en".to_string(), false, "");
    assert!(matches!(route_request("GET", "/rules"), Route::Rules));
    let (cache, language) = rules_snapshot(&state);
    assert_eq!(cache.len(), 1);
    assert_eq!(cache[0].domain, "x.com");
    assert!(matches!(cache[0].mode, Mode::Friction));
    assert_eq!(language, "en");
}

#[test]
fn routing_table() {
    assert!(matches!(route_request("OPTIONS", "/rules"), Route::Preflight));
    assert!(matches!(route_request("OPTIONS", "/anything"), Route::Preflight));
    assert!(matches!(route_request("GET", "/rules"), Route::Rules));
    assert!(matches!(route_request("POST", "/report"), Route::Report));
    assert!(matches!(route_request("GET", "/report"), Route::NotFound));
    assert!(matches!(route_request("POST", "/rules"), Route::NotFound));
    assert!(matches!(route_request("GET", "/nope"), Route::NotFound));
}

#[test]
fn report_acknowledgement_body() {
    assert_eq!(report_ack(), "{\"status\":\"ok\"}");
}

#[test]
fn hosts_path_resolution() {
    assert_eq!(resolve_hosts_path(false, "", false), "/etc/hosts");
    assert_eq!(
        resolve_hosts_path(true, "C:\\Windows", true),
        "C:\\Windows\\sysnative\\drivers\\etc\\hosts"
    );
    assert_eq!(
        resolve_hosts_path(true, "C:\\Windows", false),
        "C:\\Windows\\System32\\drivers\\etc\\hosts"
    );
    assert_eq!(sysnative_candidate("D:\\Win"), "D:\\Win\\sysnative\\drivers\\etc\\hosts");
}

#[test]
fn scheduler_arguments() {
    assert_eq!(autostart_task_name(), "MindfulBlockerAutostart");
    assert_eq!(query_args(), vec!["/Query", "/TN", "MindfulBlockerAutostart"]);
    assert_eq!(
        create_args("C:\\app.exe"),
        vec![
            "/Create",
            "/F",
            "/SC",
            "ONLOGON",
            "/RL",
            "HIGHEST",
            "/TN",
            "MindfulBlockerAutostart",
            "/TR",
            "'C:\\app.exe'"
        ]
    );
    assert_eq!(delete_args(), vec!["/Delete", "/F", "/TN", "MindfulBlockerAutostart"]);
}

#[test]
fn autostart_enable_twice_succeeds() {
    // the force flag makes the second create replace, not duplicate
    assert!(create_args("C:\\app.exe").contains(&"/F".to_string()));
    assert_eq!(interpret_create(true, "").unwrap(), "Enabled Admin Autostart");
    assert_eq!(interpret_create(true, "").unwrap(), "Enabled Admin Autostart");
}

#[test]
fn autostart_disable_missing_task_is_success() {
    let r = interpret_delete(false, "ERROR: The specified task name was not found.\r\n");
    assert_eq!(r.unwrap(), "Disabled (Task was already missing)");
    assert_eq!(interpret_delete(true, "").unwrap(), "Disabled Admin Autostart");
}

#[test]
fn autostart_failures_surface_scheduler_words() {
    let r = interpret_create(false, "ERROR: Access is denied.");
    assert_eq!(r.unwrap_err(), "Failed to create task: ERROR: Access is denied.");
    let d = interpret_delete(false, "ERROR: Access is denied.");
    assert_eq!(d.unwrap_err(), "Failed to delete task: ERROR: Access is denied.");
    assert_eq!(unsupported_platform(), "Only supported on Windows");
}
