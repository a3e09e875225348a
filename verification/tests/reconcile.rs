use scx_rustlib::engine::{LegacyAction, Probes, SwitchCall};
use scx_rustlib::errors::Error;
use scx_rustlib::modes::{convert_from_raw_mode, mode_code, SchedMode};
use scx_rustlib::registry::Registry;
use scx_rustlib::store::Config;

fn test_registry() -> Registry {
    Registry::from_names(vec![String::from("foo"), String::from("scx_bpfland")])
}

fn quiet_probes() -> Probes {
    Probes { legacy_enabled: false, legacy_active: false, loader_enabled: true }
}

#[test]
fn resolve_scheduler_rejects_unknown_name() {
    let reg = test_registry();
    assert_eq!(reg.resolve_scheduler("bar").unwrap_err(), Error::InvalidInput);
    assert_eq!(reg.resolve_scheduler("").unwrap_err(), Error::InvalidInput);
}

#[test]
fn resolve_scheduler_accepts_supported_names_stably() {
    let reg = test_registry();
    let a = reg.resolve_scheduler("scx_bpfland").unwrap();
    let b = reg.resolve_scheduler("scx_bpfland").unwrap();
    assert_eq!(a.name(), "scx_bpfland");
    assert_eq!(a.name(), b.name());
    assert_eq!(reg.resolve_scheduler("foo").unwrap().name(), "foo");
}

#[test]
fn mode_codes_decode_exactly() {
    assert_eq!(convert_from_raw_mode(0).unwrap(), SchedMode::Auto);
    assert_eq!(convert_from_raw_mode(1).unwrap(), SchedMode::Gaming);
    assert_eq!(convert_from_raw_mode(2).unwrap(), SchedMode::PowerSave);
    assert_eq!(convert_from_raw_mode(3).unwrap(), SchedMode::LowLatency);
    assert_eq!(convert_from_raw_mode(4).unwrap(), SchedMode::Server);
    assert_eq!(convert_from_raw_mode(5).unwrap_err(), Error::InvalidInput);
    assert_eq!(convert_from_raw_mode(u32::MAX).unwrap_err(), Error::InvalidInput);
}

#[test]
fn mode_codes_round_trip() {
    for code in 0u32..5u32 {
        let m = convert_from_raw_mode(code).unwrap();
        assert_eq!(mode_code(m), code);
    }
}

#[test]
fn apply_without_override_switches_by_mode_and_records_nothing() {
    let reg = test_registry();
    let mut cfg = Config::default_config();
    let plan = cfg.apply_scheduler_change(&reg, "foo", 1, "", quiet_probes()).unwrap();
    match plan.switch_call {
        SwitchCall::ByMode { scx_name, mode } => {
            assert_eq!(scx_name, "foo");
            assert_eq!(mode, SchedMode::Gaming);
        }
        SwitchCall::ByArgs { .. } => panic!("expected a switch-by-mode call"),
    }
    assert!(cfg.scheds.is_empty());
    assert_eq!(cfg.default_sched.as_deref(), Some("foo"));
    assert_eq!(cfg.default_mode, Some(SchedMode::Gaming));
}

#[test]
fn apply_with_override_switches_by_args_and_records_flags() {
    let reg = test_registry();
    let mut cfg = Config::default_config();
    let plan = cfg.apply_scheduler_change(&reg, "foo", 1, "--flag x", quiet_probes()).unwrap();
    match plan.switch_call {
        SwitchCall::ByArgs { scx_name, args } => {
            assert_eq!(scx_name, "foo");
            assert_eq!(args, vec!["--flag".to_string(), "x".to_string()]);
        }
        SwitchCall::ByMode { .. } => panic!("expected a switch-by-arguments call"),
    }
    let flags = cfg.get_scx_flags_for_mode(&reg, "foo", 1).unwrap();
    assert_eq!(flags, vec!["--flag".to_string(), "x".to_string()]);
}

#[test]
fn apply_rejects_unknown_scheduler_and_mode() {
    let reg = test_registry();
    let mut cfg = Config::default_config();
    let e = cfg.apply_scheduler_change(&reg, "bar", 1, "", quiet_probes()).unwrap_err();
    assert_eq!(e, Error::InvalidInput);
    let e = cfg.apply_scheduler_change(&reg, "foo", 9, "", quiet_probes()).unwrap_err();
    assert_eq!(e, Error::InvalidInput);
    assert!(cfg.default_sched.is_none());
}

#[test]
fn apply_plans_legacy_and_loader_actions() {
    let reg = test_registry();
    let mut cfg = Config::default_config();
    let probes = Probes { legacy_enabled: true, legacy_active: true, loader_enabled: false };
    let plan = cfg.apply_scheduler_change(&reg, "foo", 0, "", probes).unwrap();
    assert_eq!(plan.legacy, LegacyAction::DisableAndStop);
    assert!(plan.enable_loader);
    let probes = Probes { legacy_enabled: false, legacy_active: true, loader_enabled: true };
    let plan = cfg.apply_scheduler_change(&reg, "foo", 0, "", probes).unwrap();
    assert_eq!(plan.legacy, LegacyAction::Stop);
    assert!(!plan.enable_loader);
    let plan = cfg.apply_scheduler_change(&reg, "foo", 0, "", quiet_probes()).unwrap();
    assert_eq!(plan.legacy, LegacyAction::Leave);
}

#[test]
fn disable_clears_both_defaults_and_stops_once() {
    let reg = test_registry();
    let mut cfg = Config::default_config();
    cfg.apply_scheduler_change(&reg, "foo", 1, "--flag x", quiet_probes()).unwrap();
    let plan = cfg.disable_scheduler();
    assert!(plan.stop_scheduler);
    assert!(cfg.default_sched.is_none());
    assert!(cfg.default_mode.is_none());
    // disabling again, from an already-cleared state, leaves both cleared
    let plan = cfg.disable_scheduler();
    assert!(plan.stop_scheduler);
    assert!(cfg.default_sched.is_none());
    assert!(cfg.default_mode.is_none());
    // the override recorded before the disable is untouched
    let flags = cfg.get_scx_flags_for_mode(&reg, "foo", 1).unwrap();
    assert_eq!(flags, vec!["--flag".to_string(), "x".to_string()]);
}

#[test]
fn apply_twice_persists_the_same_document() {
    let reg = test_registry();
    let mut once = Config::default_config();
    let plan1 = once.apply_scheduler_change(&reg, "foo", 1, "--flag x", quiet_probes()).unwrap();
    let mut twice = Config::default_config();
    twice.apply_scheduler_change(&reg, "foo", 1, "--flag x", quiet_probes()).unwrap();
    let plan2 = twice.apply_scheduler_change(&reg, "foo", 1, "--flag x", quiet_probes()).unwrap();
    assert_eq!(plan1.document, plan2.document);
    // the second application finds the override already in force and
    // therefore switches by mode
    assert!(matches!(plan2.switch_call, SwitchCall::ByMode { .. }));
}
