use scx_rustlib::codec::{load_or_default, parse_config_document};
use scx_rustlib::engine::Probes;
use scx_rustlib::errors::Error;
use scx_rustlib::modes::SchedMode;
use scx_rustlib::registry::Registry;
use scx_rustlib::store::Config;

fn reg() -> Registry {
    Registry::from_names(vec![String::from("foo"), String::from("scx_bpfland")])
}

fn probes() -> Probes {
    Probes { legacy_enabled: false, legacy_active: false, loader_enabled: true }
}

#[test]
fn load_or_default_without_a_document_yields_the_builtin_default() {
    let cfg = load_or_default(None).unwrap();
    assert!(cfg.default_sched.is_none());
    assert_eq!(cfg.default_mode, Some(SchedMode::Auto));
    assert!(cfg.scheds.is_empty());
}

#[test]
fn load_or_default_fails_on_a_malformed_document() {
    assert_eq!(load_or_default(Some("")).unwrap_err(), Error::ConfigIo);
    assert_eq!(load_or_default(Some("not a config")).unwrap_err(), Error::ConfigIo);
    assert_eq!(load_or_default(Some("default_sched = unquoted\n")).unwrap_err(), Error::ConfigIo);
    // a default scheduler line must be followed at once by a default mode line
    assert_eq!(
        load_or_default(Some("default_sched = \"foo\"\n")).unwrap_err(),
        Error::ConfigIo
    );
    // duplicate tables for one scheduler are refused
    assert_eq!(
        load_or_default(Some("[scheds.\"a\"]\n[scheds.\"a\"]\n")).unwrap_err(),
        Error::ConfigIo
    );
}

#[test]
fn load_or_default_reads_back_what_was_written() {
    let mut cfg = Config::default_config();
    cfg.apply_scheduler_change(&reg(), "foo", 1, "--flag x", probes()).unwrap();
    cfg.apply_scheduler_change(&reg(), "scx_bpfland", 2, "-s 20000", probes()).unwrap();
    let written = cfg.render();
    let reread = load_or_default(Some(written.as_str())).unwrap();
    assert_eq!(reread.render(), written);
    assert_eq!(reread.default_sched.as_deref(), Some("scx_bpfland"));
    assert_eq!(reread.default_mode, Some(SchedMode::PowerSave));
    assert_eq!(reread.scheds.len(), cfg.scheds.len());
}

#[test]
fn rendered_document_is_deterministic_and_line_oriented() {
    let mut cfg = Config::default_config();
    cfg.apply_scheduler_change(&reg(), "foo", 1, "--flag x", probes()).unwrap();
    let one = cfg.render();
    let two = cfg.render();
    assert_eq!(one, two);
    assert_eq!(
        one,
        "default_sched = \"foo\"\ndefault_mode = \"Gaming\"\n[scheds.\"foo\"]\ngaming_mode = [\"--flag\", \"x\"]\n"
    );
}

#[test]
fn round_trip_preserves_every_field() {
    let mut cfg = Config::default_config();
    cfg.apply_scheduler_change(&reg(), "foo", 0, "-a 1", probes()).unwrap();
    cfg.apply_scheduler_change(&reg(), "foo", 4, "-s", probes()).unwrap();
    cfg.apply_scheduler_change(&reg(), "scx_bpfland", 3, "--lowlat", probes()).unwrap();
    let parsed = parse_config_document(cfg.render().as_str()).unwrap();
    assert_eq!(parsed.default_sched, cfg.default_sched);
    assert_eq!(parsed.default_mode, cfg.default_mode);
    assert_eq!(parsed.scheds.len(), cfg.scheds.len());
    for (a, b) in parsed.scheds.iter().zip(cfg.scheds.iter()) {
        assert_eq!(a.name, b.name);
        assert_eq!(a.auto_mode, b.auto_mode);
        assert_eq!(a.gaming_mode, b.gaming_mode);
        assert_eq!(a.lowlatency_mode, b.lowlatency_mode);
        assert_eq!(a.powersave_mode, b.powersave_mode);
        assert_eq!(a.server_mode, b.server_mode);
    }
}

#[test]
fn flags_with_unstorable_characters_are_invalid_input() {
    let mut cfg = Config::default_config();
    let e = cfg.apply_scheduler_change(&reg(), "foo", 1, "--a \"b\"", probes()).unwrap_err();
    assert_eq!(e, Error::InvalidInput);
    let e = cfg.apply_scheduler_change(&reg(), "foo", 1, "--a\tb", probes()).unwrap_err();
    assert_eq!(e, Error::InvalidInput);
    assert!(cfg.default_sched.is_none());
}

#[test]
fn builtin_loader_flags_reach_through_the_lookup() {
    // with no override stored, the flags for a scheduler the loader knows
    // come from the loader's own table
    let cfg = Config::default_config();
    let flags = cfg.get_scx_flags_for_mode(&reg(), "scx_bpfland", 1).unwrap();
    assert_eq!(flags, vec!["-m".to_string(), "all".to_string()]);
    let flags = cfg.get_scx_flags_for_mode(&reg(), "scx_bpfland", 4).unwrap();
    assert_eq!(flags, vec!["-s".to_string(), "20000".to_string(), "-S".to_string()]);
    // a name the loader does not know has no built-in flags
    let flags = cfg.get_scx_flags_for_mode(&reg(), "foo", 1).unwrap();
    assert!(flags.is_empty());
}

#[test]
fn rendered_document_is_valid_toml() {
    let mut cfg = Config::default_config();
    cfg.apply_scheduler_change(&reg(), "foo", 1, "--flag x", probes()).unwrap();
    let doc: toml::Value = toml::from_str(cfg.render().as_str()).unwrap();
    assert_eq!(
        doc.get("default_sched").and_then(|v| v.as_str()),
        Some("foo")
    );
    assert_eq!(
        doc.get("default_mode").and_then(|v| v.as_str()),
        Some("Gaming")
    );
    let gaming = doc
        .get("scheds")
        .and_then(|v| v.get("foo"))
        .and_then(|v| v.get("gaming_mode"))
        .and_then(|v| v.as_array())
        .unwrap();
    let gaming: Vec<&str> = gaming.iter().filter_map(|v| v.as_str()).collect();
    assert_eq!(gaming, vec!["--flag", "x"]);
}

#[test]
fn error_descriptions_are_nonempty() {
    assert!(!Error::InvalidInput.describe().is_empty());
    assert!(!Error::ConfigIo.describe().is_empty());
    assert!(!Error::RemoteCall.describe().is_empty());
    assert!(!Error::PrivilegedCopy.describe().is_empty());
}

#[test]
fn parser_accepts_bare_table_keys_and_blank_lines() {
    let text = "default_mode = \"Auto\"\n\n[scheds.scx_bpfland]\ngaming_mode = [\"-m\", \"all\"]\n";
    let cfg = parse_config_document(text).unwrap();
    assert!(cfg.default_sched.is_none());
    assert_eq!(cfg.default_mode, Some(SchedMode::Auto));
    assert_eq!(cfg.scheds.len(), 1);
    assert_eq!(cfg.scheds[0].name, "scx_bpfland");
    assert_eq!(
        cfg.scheds[0].gaming_mode,
        Some(vec!["-m".to_string(), "all".to_string()])
    );
}
