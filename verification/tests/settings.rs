use tsk_core::commands::{check, disable_enabled_in_yaml, doctor, init, off, ConfigOff};
use tsk_core::config::Config;
use tsk_core::json::{parse, Json};
use tsk_core::settings::{add_tsk_hooks, has_tsk_hook, merge_hooks, strip_tsk_hooks, Merge};

fn doc(s: &str) -> Json {
    parse(s).unwrap()
}

const WIRED: &str = r#"{"hooks":{"PostToolUse":[{"hooks":[{"command":"tsk hook PostToolUse","type":"command"}],"matcher":"Read"}],"PreCompact":[{"hooks":[{"command":"tsk hook PreCompact","type":"command"}]}],"PreToolUse":[{"hooks":[{"command":"tsk hook PreToolUse","type":"command"}],"matcher":"Read"}],"SessionStart":[{"hooks":[{"command":"tsk hook SessionStart","type":"command"}]}],"UserPromptSubmit":[{"hooks":[{"command":"tsk hook UserPromptSubmit","type":"command"}]}]}}"#;

#[test]
fn empty_settings_get_every_hook() {
    assert_eq!(add_tsk_hooks(&doc("{}")).render(), WIRED);
    assert!(has_tsk_hook(&doc(WIRED)));
    assert!(!has_tsk_hook(&doc("{}")));
}

#[test]
fn adding_twice_is_adding_once() {
    for s in ["{}", r#"{"hooks":{}}"#, r#"{"hooks":{"PreToolUse":[{"x":1}],"Other":5}}"#, "[1]", r#"{"hooks":7}"#] {
        let once = add_tsk_hooks(&doc(s));
        assert_eq!(add_tsk_hooks(&once).render(), once.render());
    }
}

#[test]
fn adding_keeps_what_is_there() {
    let r = add_tsk_hooks(&doc(r#"{"model":"m","hooks":{"PreToolUse":[{"mine":1}],"Stop":[{"s":2}],"PreCompact":"odd"}}"#));
    assert_eq!(r.get("model"), Some(&Json::Text("m".to_string())));
    let hooks = r.get("hooks").unwrap();
    assert_eq!(hooks.get("Stop").unwrap().render(), r#"[{"s":2}]"#);
    assert_eq!(hooks.get("PreCompact").unwrap().render(), r#""odd""#);
    assert_eq!(
        hooks.get("PreToolUse").unwrap().render(),
        r#"[{"mine":1},{"hooks":[{"command":"tsk hook PreToolUse","type":"command"}],"matcher":"Read"}]"#
    );
    // Settings of another shape are left alone.
    assert_eq!(add_tsk_hooks(&doc("[1]")).render(), "[1]");
    assert_eq!(add_tsk_hooks(&doc(r#"{"hooks":[]}"#)).render(), r#"{"hooks":[]}"#);
}

#[test]
fn stripping_undoes_adding() {
    for s in ["{}", r#"{"a":1,"hooks":{"Stop":[{"s":2}]}}"#, r#"{"hooks":{"PreToolUse":[{"x":1},{"y":2}]}}"#] {
        let (back, n) = strip_tsk_hooks(&add_tsk_hooks(&doc(s)));
        assert_eq!(back.render(), doc(s).render());
        assert_eq!(n, 5);
        let (again, n) = strip_tsk_hooks(&back);
        assert_eq!(again.render(), back.render());
        assert_eq!(n, 0);
    }
}

#[test]
fn stripping_drops_empty_lists_and_odd_members() {
    let (r, n) = strip_tsk_hooks(&doc(
        r#"{"hooks":{"A":[{"command":"tsk hook A"},{"b":1}],"B":["x tsk hook y"],"C":[],"D":3}}"#,
    ));
    assert_eq!(r.render(), r#"{"hooks":{"A":[{"b":1}]}}"#);
    assert_eq!(n, 2);
    let (r, n) = strip_tsk_hooks(&doc(r#"{"k":1,"hooks":{}}"#));
    assert_eq!((r.render().as_str(), n), (r#"{"k":1}"#, 0));
    let (r, n) = strip_tsk_hooks(&doc(r#"{"hooks":"none"}"#));
    assert_eq!((r.render().as_str(), n), (r#"{"hooks":"none"}"#, 0));
}

#[test]
fn merging_writes_indented_settings() {
    let (text, what) = merge_hooks(None, "/p/settings.json", true).unwrap();
    assert_eq!(what, Merge::Wired);
    assert!(text.contains("\n    \"PreToolUse\": [\n"));
    assert_eq!(doc(&text).render(), WIRED);
    let (text, what) = merge_hooks(Some(&text), "/p/settings.json", false).unwrap();
    assert_eq!((text.as_str(), what), ("{}", Merge::Removed));
    let (text, what) = merge_hooks(None, "/p/settings.json", false).unwrap();
    assert_eq!((text.as_str(), what), ("{}", Merge::Kept));
}

#[test]
fn settings_that_cannot_be_parsed_are_not_overwritten() {
    let e = merge_hooks(Some("{"), "/p/settings.json", true).unwrap_err();
    assert!(e.starts_with("/p/settings.json is not valid JSON, refusing to overwrite: EOF"));
}

#[test]
fn switching_off_keeps_the_comments() {
    let y = disable_enabled_in_yaml(Config::default_yaml());
    assert_eq!(y, Config::default_yaml().replacen("enabled: true", "enabled: false", 1));
    assert!(y.contains("lossless"));
    assert_eq!(disable_enabled_in_yaml(&y), y);
    assert_eq!(
        disable_enabled_in_yaml("a\r\n enabled: true # enabled: true\n"),
        "a\r\n enabled: false # enabled: false\n"
    );
    assert_eq!(
        disable_enabled_in_yaml("# enabled: true turns TSK on\nenabled: true\n"),
        "# enabled: true turns TSK on\nenabled: false\n"
    );
    assert_eq!(disable_enabled_in_yaml(" \t# enabled: true"), " \t# enabled: true");
    assert_eq!(disable_enabled_in_yaml("enabled:  true"), "enabled:  true");
    assert_eq!(disable_enabled_in_yaml(""), "");
    // Two switches that share a letter are the one text that takes a second turn.
    assert_eq!(disable_enabled_in_yaml("enabled: truenabled: true"), "enabled: falsenabled: true");
}

#[test]
fn the_doctor_lists_its_checks() {
    let d = doctor(true, true, true, true);
    assert_eq!(
        d.lines,
        vec!["[ok] config present", "[ok] ~/.tsk writable", "[ok] settings.json wired", "[ok] tsk in PATH"]
    );
    assert_eq!(d.verdict, "doctor: all checks passed\n");
    let d = doctor(true, true, false, true);
    assert_eq!(d.lines[2], "[FAIL] settings.json wired");
    assert_eq!(d.verdict, "doctor: some checks failed\n");
    assert_eq!(check("x", false), ("x", false));
}

#[test]
fn what_init_and_off_say() {
    assert_eq!(init(true, "/c"), "tsk: enabled. Output compression is OFF until you edit /c\n");
    assert_eq!(init(false, "/c"), "tsk: installed incompletely (see above)\n");
    assert_eq!(
        off(ConfigOff::Disabled, Ok(Merge::Removed)),
        "tsk: config disabled\ntsk: hooks removed\n"
    );
    assert_eq!(
        off(ConfigOff::NotWritten, Ok(Merge::Kept)),
        "tsk: could not write config\ntsk: no TSK hooks found\n"
    );
    assert_eq!(
        off(ConfigOff::NoFile, Err("why".to_string())),
        "tsk: no config file\ntsk: could not remove hooks: why\n"
    );
    assert!(off(ConfigOff::NotSerialized, Ok(Merge::Kept)).starts_with("tsk: could not serialize config\n"));
}
