use order_matcher::env_flags::{EnvFeatureFlags, Environment};
use order_matcher::feature_flags::FeatureFlags;
use order_matcher::rollout::{config_grants, FeatureConfig, FeatureFlagSystem};

#[test]
fn flags_default_off_and_set() {
    let mut flags = FeatureFlags::new();
    assert!(!flags.is_enabled("advanced_risk_check"));
    flags.set("advanced_risk_check", true);
    flags.set("smart_order_routing", false);
    assert!(flags.is_enabled("advanced_risk_check"));
    assert!(!flags.is_enabled("smart_order_routing"));
    flags.set("smart_order_routing", true);
    assert!(flags.is_enabled("smart_order_routing"));
    flags.set("advanced_risk_check", false);
    assert!(!flags.is_enabled("advanced_risk_check"));
}

#[test]
fn flags_load_from_config_later_entry_wins() {
    let config = vec![
        ("ml_price_prediction".to_string(), true),
        ("smart_order_routing".to_string(), false),
        ("ml_price_prediction".to_string(), false),
        ("advanced_risk_check".to_string(), true),
    ];
    let flags = FeatureFlags::load_from_config(&config);
    assert!(!flags.is_enabled("ml_price_prediction"));
    assert!(!flags.is_enabled("smart_order_routing"));
    assert!(flags.is_enabled("advanced_risk_check"));
    assert!(!flags.is_enabled("unknown"));
}

#[test]
fn environment_from_setting() {
    assert_eq!(Environment::from_setting("production"), Environment::Production);
    assert_eq!(Environment::from_setting("prod"), Environment::Production);
    assert_eq!(Environment::from_setting("staging"), Environment::Staging);
    assert_eq!(Environment::from_setting("stage"), Environment::Staging);
    assert_eq!(Environment::from_setting("dev"), Environment::Development);
    assert_eq!(Environment::from_setting(""), Environment::Development);
    assert_eq!(Environment::from_setting("Production"), Environment::Development);
}

#[test]
fn env_defaults_per_environment() {
    let dev = EnvFeatureFlags::with_environment(Environment::Development);
    let stg = EnvFeatureFlags::with_environment(Environment::Staging);
    let prd = EnvFeatureFlags::with_environment(Environment::Production);
    assert_eq!(dev.environment(), Environment::Development);
    assert_eq!(prd.environment(), Environment::Production);
    let table = [
        ("debug_logging", [true, false, false]),
        ("verbose_errors", [true, true, false]),
        ("paper_trading", [true, true, false]),
        ("live_trading", [false, false, true]),
        ("relaxed_risk_limits", [true, false, false]),
        ("query_caching", [false, true, true]),
        ("experimental_algorithm", [true, false, false]),
        ("no_such_feature", [false, false, false]),
    ];
    for (name, expected) in table.iter() {
        assert_eq!(dev.is_enabled(name), expected[0], "{} in development", name);
        assert_eq!(stg.is_enabled(name), expected[1], "{} in staging", name);
        assert_eq!(prd.is_enabled(name), expected[2], "{} in production", name);
    }
}

#[test]
fn env_overrides_take_precedence() {
    let mut flags = EnvFeatureFlags::with_environment(Environment::Production);
    assert!(!flags.is_enabled("debug_logging"));
    assert!(!flags.is_enabled("paper_trading"));
    flags.set_override("debug_logging", true);
    flags.set_override("paper_trading", true);
    flags.set_override("live_trading", false);
    assert!(flags.is_enabled("debug_logging"));
    assert!(flags.is_enabled("paper_trading"));
    assert!(!flags.is_enabled("live_trading"));
    assert!(!flags.is_enabled("verbose_errors"));
    assert_eq!(flags.environment(), Environment::Production);
}

fn config(enabled: bool, pct: u8, allowed: &[&str], blocked: &[&str]) -> FeatureConfig {
    FeatureConfig {
        enabled,
        rollout_percentage: pct,
        allowed_users: allowed.iter().map(|s| s.to_string()).collect(),
        blocked_users: blocked.iter().map(|s| s.to_string()).collect(),
    }
}

#[test]
fn feature_config_default_is_off() {
    let c = FeatureConfig::default();
    assert!(!c.enabled);
    assert_eq!(c.rollout_percentage, 0);
    assert!(c.allowed_users.is_empty());
    assert!(c.blocked_users.is_empty());
}

#[test]
fn config_grants_by_rule_order() {
    let c = config(true, 25, &["beta_tester_1"], &["risk_averse_user"]);
    assert!(config_grants(&c, "beta_tester_1", 99));
    assert!(!config_grants(&c, "risk_averse_user", 0));
    assert!(config_grants(&c, "user_001", 24));
    assert!(!config_grants(&c, "user_001", 25));
    let off = config(false, 100, &["beta_tester_1"], &[]);
    assert!(!config_grants(&off, "beta_tester_1", 0));
    let both = config(true, 100, &["x"], &["x"]);
    assert!(!config_grants(&both, "x", 0));
    let full = config(true, 100, &[], &[]);
    assert!(config_grants(&full, "anyone", 99));
    let none = config(true, 0, &[], &[]);
    assert!(!config_grants(&none, "anyone", 0));
}

#[test]
fn rollout_unknown_feature_is_off() {
    let sys = FeatureFlagSystem::new();
    assert!(!sys.is_enabled_for_user("new_entry_logic", "user_001"));
    assert_eq!(sys.get_rollout_stats("new_entry_logic", &["a", "b"]), (0, 2));
}

#[test]
fn rollout_lists_and_switch() {
    let mut sys = FeatureFlagSystem::new();
    sys.configure("new_entry_logic", config(true, 0, &["beta_tester_1"], &[]));
    sys.configure("experimental_exit", config(true, 100, &[], &["risk_averse_user"]));
    assert!(sys.is_enabled_for_user("new_entry_logic", "beta_tester_1"));
    assert!(!sys.is_enabled_for_user("new_entry_logic", "user_001"));
    assert!(!sys.is_enabled_for_user("experimental_exit", "risk_averse_user"));
    assert!(sys.is_enabled_for_user("experimental_exit", "user_001"));
    sys.configure("experimental_exit", config(false, 100, &[], &[]));
    assert!(!sys.is_enabled_for_user("experimental_exit", "user_001"));
}

#[test]
fn rollout_percentage_is_stable_and_partial() {
    let mut sys = FeatureFlagSystem::new();
    let names: Vec<String> = (0..1000).map(|i| format!("user_{:04}", i)).collect();
    let users: Vec<&str> = names.iter().map(|s| s.as_str()).collect();

    sys.enable_for_percentage("gradual_feature", 0);
    assert_eq!(sys.get_rollout_stats("gradual_feature", &users), (0, 1000));

    sys.enable_for_percentage("gradual_feature", 50);
    let (half, total) = sys.get_rollout_stats("gradual_feature", &users);
    assert_eq!(total, 1000);
    assert!(half > 300 && half < 700, "got {}", half);
    assert_eq!(sys.get_rollout_stats("gradual_feature", &users), (half, 1000));
    for u in users.iter().take(50) {
        assert_eq!(sys.is_enabled_for_user("gradual_feature", u), sys.is_enabled_for_user("gradual_feature", u));
    }

    sys.enable_for_percentage("gradual_feature", 75);
    let (more, _) = sys.get_rollout_stats("gradual_feature", &users);
    assert!(more >= half);

    sys.enable_for_percentage("gradual_feature", 250);
    assert_eq!(sys.get_rollout_stats("gradual_feature", &users), (1000, 1000));
}

#[test]
fn rollout_bucket_depends_on_feature_name() {
    let mut sys = FeatureFlagSystem::new();
    sys.enable_for_percentage("feature_a", 50);
    sys.enable_for_percentage("feature_b", 50);
    let names: Vec<String> = (0..200).map(|i| format!("user_{:04}", i)).collect();
    let differ = names
        .iter()
        .filter(|u| sys.is_enabled_for_user("feature_a", u) != sys.is_enabled_for_user("feature_b", u))
        .count();
    assert!(differ > 0);
}

#[test]
fn enable_for_percentage_keeps_lists() {
    let mut sys = FeatureFlagSystem::new();
    sys.configure("f", config(false, 0, &["vip"], &["banned"]));
    sys.enable_for_percentage("f", 100);
    assert!(sys.is_enabled_for_user("f", "vip"));
    assert!(!sys.is_enabled_for_user("f", "banned"));
    assert!(sys.is_enabled_for_user("f", "someone"));
}
