use mindfulblock::lifecycle::{apply_blocking_rules, set_clean_on_exit, AppState, ApplyError};
use mindfulblock::reconcile::reconcile;
use mindfulblock::rules::{build_friction_cache, canonicalize_domain, default_mode, BlockRule, Mode};

fn rule(domain: &str, is_active: bool, mode: Mode) -> BlockRule {
    BlockRule { domain: domain.to_string(), is_active, mode }
}

#[test]
fn concrete_scenario_single_hard_rule() {
    let existing = "1.2.3.4 example.org\n";
    let rules = vec![rule("Test.com", true, Mode::Hard)];
    let out = reconcile(existing, &rules);
    assert_eq!(
        out,
        "1.2.3.4 example.org\n\n# MINDFULBLOCK_START\n\
         127.0.0.1 test.com\n127.0.0.1 www.test.com\n::1 test.com\n::1 www.test.com\n\
         # MINDFULBLOCK_END\n"
    );
}

#[test]
fn idempotent_on_its_own_output() {
    let existing = "1.2.3.4 example.org\n# old comment\n";
    let rules = vec![
        rule("Test.com", true, Mode::Hard),
        rule("other.net", true, Mode::Hard),
        rule("soft.dev", true, Mode::Friction),
    ];
    let once = reconcile(existing, &rules);
    let twice = reconcile(&once, &rules);
    assert_eq!(once, twice);
}

#[test]
fn idempotent_from_empty_file() {
    let rules = vec![rule("a.com", true, Mode::Hard)];
    let once = reconcile("", &rules);
    let twice = reconcile(&once, &rules);
    assert_eq!(once, twice);
}

#[test]
fn region_isolation_preserves_surrounding_lines() {
    let existing = "before1\nbefore2\n# MINDFULBLOCK_START\n127.0.0.1 old.com\n\
                    # MINDFULBLOCK_END\nafter\n";
    let rules = vec![rule("new.com", true, Mode::Hard)];
    let out = reconcile(existing, &rules);
    assert_eq!(
        out,
        "before1\nbefore2\nafter\n\n# MINDFULBLOCK_START\n\
         127.0.0.1 new.com\n127.0.0.1 www.new.com\n::1 new.com\n::1 www.new.com\n\
         # MINDFULBLOCK_END\n"
    );
}

#[test]
fn region_isolation_when_block_absent() {
    let existing = "keep me\nand me\n";
    let out = reconcile(existing, &vec![]);
    assert_eq!(out, "keep me\nand me\n\n# MINDFULBLOCK_START\n# MINDFULBLOCK_END\n");
}

#[test]
fn missing_file_treated_as_empty() {
    let out = reconcile("", &vec![]);
    assert_eq!(out, "\n\n# MINDFULBLOCK_START\n# MINDFULBLOCK_END\n");
}

#[test]
fn line_endings_are_normalized() {
    let out = reconcile("a\r\nb\n", &vec![]);
    assert_eq!(out, "a\nb\n\n# MINDFULBLOCK_START\n# MINDFULBLOCK_END\n");
}

#[test]
fn canonicalization_collapses_spellings() {
    assert_eq!(canonicalize_domain("WWW.Example.com"), "example.com");
    assert_eq!(canonicalize_domain("example.com"), "example.com");
    assert_eq!(canonicalize_domain("  Example.COM  "), "example.com");
    let a = reconcile("", &vec![rule("WWW.Example.com", true, Mode::Hard)]);
    let b = reconcile("", &vec![rule("example.com", true, Mode::Hard)]);
    assert_eq!(a, b);
}

#[test]
fn www_prefix_stripped_exactly_once() {
    assert_eq!(canonicalize_domain("www.www.x.com"), "www.x.com");
}

#[test]
fn mode_partition_hosts_and_cache() {
    let rules = vec![
        rule("hardone.com", true, Mode::Hard),
        rule("softone.com", true, Mode::Friction),
        rule("waity.com", true, Mode::FrictionWait),
        rule("offline.com", false, Mode::Hard),
        rule("offsoft.com", false, Mode::Friction),
    ];
    let out = reconcile("", &rules);
    assert!(out.contains("127.0.0.1 hardone.com"));
    assert!(!out.contains("softone.com"));
    assert!(!out.contains("waity.com"));
    assert!(!out.contains("offline.com"));
    let cache = build_friction_cache(&rules);
    assert_eq!(cache.len(), 2);
    assert_eq!(cache[0].domain, "softone.com");
    assert!(matches!(cache[0].mode, Mode::Friction));
    assert_eq!(cache[1].domain, "waity.com");
    assert!(matches!(cache[1].mode, Mode::FrictionWait));
}

#[test]
fn toggling_inactive_removes_from_both() {
    let active = vec![rule("x.com", true, Mode::Hard), rule("y.com", true, Mode::Friction)];
    let inactive = vec![rule("x.com", false, Mode::Hard), rule("y.com", false, Mode::Friction)];
    let out = reconcile("", &inactive);
    assert!(!out.contains("x.com"));
    assert!(build_friction_cache(&inactive).is_empty());
    let out2 = reconcile("", &active);
    assert!(out2.contains("127.0.0.1 x.com"));
    assert_eq!(build_friction_cache(&active).len(), 1);
}

#[test]
fn clean_on_exit_writes_empty_block() {
    let mut state = AppState::new("vi".to_string());
    set_clean_on_exit(&mut state, true);
    assert!(state.clean_on_exit);
    let existing = "1.2.3.4 example.org\n\n# MINDFULBLOCK_START\n127.0.0.1 x.com\n\
                    # MINDFULBLOCK_END\n";
    let r = apply_blocking_rules(&mut state, &vec![], "vi".to_string(), true, existing);
    let out = r.unwrap();
    assert_eq!(out, "1.2.3.4 example.org\n\n# MINDFULBLOCK_START\n# MINDFULBLOCK_END\n");
    assert!(state.cached_rules.is_empty());
}

#[test]
fn apply_without_privilege_keeps_cache_and_fails() {
    let mut state = AppState::new("vi".to_string());
    let rules = vec![rule("x.com", true, Mode::Friction)];
    let r = apply_blocking_rules(&mut state, &rules, "en".to_string(), false, "");
    let err = r.unwrap_err();
    assert!(matches!(err, ApplyError::AdminRequired));
    assert_eq!(err.token(), "ADMIN_REQUIRED");
    assert_eq!(state.cached_rules.len(), 1);
    assert_eq!(state.cached_rules[0].domain, "x.com");
    assert_eq!(state.language, "en");
}

#[test]
fn empty_canonical_domain_is_not_written() {
    let out = reconcile("", &vec![rule("   ", true, Mode::Hard), rule("www.", true, Mode::Hard)]);
    assert_eq!(out, "\n\n# MINDFULBLOCK_START\n# MINDFULBLOCK_END\n");
}

#[test]
fn default_mode_is_hard() {
    assert_eq!(default_mode(), "hard");
}

#[test]
fn friction_modes() {
    assert!(!Mode::Hard.is_friction());
    assert!(Mode::Friction.is_friction());
    assert!(Mode::FrictionWait.is_friction());
    assert!(Mode::FrictionTyping.is_friction());
}

#[test]
fn doubled_carriage_return_stabilizes_after_one_pass() {
    // "x\r\r\n" is read back as "x\r" and re-written as "x\r\n", which the
    // next pass reads as "x": one pass shorter each time until stable
    let first = reconcile("x\r\r\na\n", &vec![]);
    let second = reconcile(&first, &vec![]);
    let third = reconcile(&second, &vec![]);
    assert_ne!(first, second);
    assert_eq!(second, third);
}
