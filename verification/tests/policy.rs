use tsk_core::config::{CompressionLevel, Config, Limits};
use tsk_core::json::{parse, Json};
use tsk_core::policy::{is_aggregate_ext, is_escape, route, route_within, Plan};

fn doc(s: &str) -> Json {
    parse(s).unwrap()
}

#[test]
fn escape_hatch_always_wins() {
    for v in [doc(r#"{"offset": 10}"#), doc(r#"{"limit": 5}"#), doc(r#"{"offset":0,"limit":3}"#)] {
        assert!(is_escape(&v));
    }
    assert!(!is_escape(&doc(r#"{"file_path":"a"}"#)));
    assert!(!is_escape(&doc("null")));
}

#[test]
fn an_offset_of_null_is_still_an_offset() {
    assert!(is_escape(&doc(r#"{"file_path":"a","offset":null}"#)));
    assert!(!is_escape(&doc(r#"["offset"]"#)));
    assert!(!is_escape(&doc(r#"{"inner":{"limit":1}}"#)));
}

#[test]
fn routing_thresholds() {
    let kb = 1024usize;
    assert_eq!(route(Some(51 * kb), "rs"), Plan::Skeleton);
    assert_eq!(route(Some(100 * kb), "rs"), Plan::Skeleton);
    assert_eq!(route(Some(51 * kb), "log"), Plan::Sandbox);
    assert_eq!(route(Some(60 * kb), "jsonl"), Plan::Sandbox);
    assert_eq!(route(Some(10 * kb), "log"), Plan::Skeleton);
    assert_eq!(route(Some(101 * kb), "log"), Plan::Externalize);
    assert_eq!(route(None, "log"), Plan::Skeleton); // unknown size: never guess
}

#[test]
fn thresholds_are_exclusive() {
    assert_eq!(route(Some(50 * 1024), "log"), Plan::Skeleton);
    assert_eq!(route(Some(50 * 1024 + 1), "log"), Plan::Sandbox);
    assert_eq!(route(Some(100 * 1024), "log"), Plan::Sandbox);
    assert_eq!(route(Some(100 * 1024 + 1), "rs"), Plan::Externalize);
}

#[test]
fn aggregate_shape_heuristic() {
    assert!(is_aggregate_ext("log"));
    assert!(is_aggregate_ext("jsonl"));
    assert!(!is_aggregate_ext("rs"));
    assert!(!is_aggregate_ext("md"));
}

#[test]
fn aggregate_extensions_are_these_five() {
    for e in ["log", "jsonl", "csv", "json", "tsv"] {
        assert!(is_aggregate_ext(e));
    }
    for e in ["", "LOG", "logs", "txt", "json5"] {
        assert!(!is_aggregate_ext(e));
    }
}

#[test]
fn compression_needs_both_keys() {
    let c = |enabled, output_compression| Config { enabled, output_compression }.compression_on();
    assert!(c(true, CompressionLevel::Full));
    assert!(c(true, CompressionLevel::Auto));
    assert!(!c(true, CompressionLevel::Off));
    assert!(!c(false, CompressionLevel::Full));
}

#[test]
fn the_default_is_enabled_and_off() {
    let d = Config { enabled: true, output_compression: CompressionLevel::Off };
    assert_eq!(Config::default(), d);
    assert_eq!(Config::load(None), d);
    let own = Config { enabled: false, output_compression: CompressionLevel::Lite };
    assert_eq!(Config::load(Some(own)), own);
}

#[test]
fn the_default_yaml_documents_every_level() {
    let y = Config::default_yaml();
    assert!(y.starts_with("enabled: true\n# output_compression:"));
    assert!(y.ends_with("output_compression: off\n"));
    for level in ["off  ", "lite ", "full ", "ultra", "auto "] {
        assert!(y.contains(&format!("#   {level} = ")));
    }
    assert_eq!(y.lines().count(), 12);
    assert!(y.contains("(break-even≈3)"));
}

fn vars(v: &[(&str, &str)]) -> Vec<(String, String)> {
    v.iter().map(|(k, x)| (k.to_string(), x.to_string())).collect()
}

#[test]
fn variables_override_constants() {
    assert_eq!(Limits::read(&vars(&[("PATH", "/bin")])), Limits::standard());
    let l = Limits::read(&vars(&[
        ("TSK_ADV_ROUTE_THRESHOLD", "10"),
        ("TSK_ADV_SANDBOX_TIMEOUT", "3"),
        ("TSK_ADV_SNAPSHOT_MAX", "0099"),
        ("TSK_ADV_ROUTE_THRESHOLD", "77"),
    ]));
    assert_eq!((l.route_threshold, l.sandbox_timeout, l.snapshot_max), (10, 3, 99));
    assert_eq!(l.externalize_threshold, 100 * 1024);
    assert_eq!(route_within(Some(11), "log", &l), Plan::Sandbox);
    assert_eq!(route_within(Some(11), "log", &Limits::standard()), Plan::Skeleton);
}

#[test]
fn what_is_no_number_overrides_nothing() {
    for v in ["", "-1", "1e3", " 7", "7 ", "0x10", "18446744073709551616"] {
        assert_eq!(Limits::read(&vars(&[("TSK_ADV_INJECT_BUDGET", v)])), Limits::standard(), "{v}");
    }
    let most = Limits::read(&vars(&[("TSK_ADV_SANDBOX_HARD_CAP", "18446744073709551615")]));
    assert_eq!(most.sandbox_hard_cap, u64::MAX);
}

#[test]
fn every_limit_has_its_variable() {
    let names = [
        "SKELETON_HEAD", "SKELETON_TAIL", "MIN_LINES", "ROUTE_THRESHOLD", "EXTERNALIZE_THRESHOLD",
        "SANDBOX_MAX_OUTPUT", "SANDBOX_HARD_CAP", "SANDBOX_TIMEOUT", "INJECT_BUDGET",
        "INJECT_P1_MAX_CHARS", "INJECT_P2_N", "INJECT_P3_N", "SNAPSHOT_MAX",
        "COMPACT_ADVICE_THRESHOLD",
    ];
    let set: Vec<(String, String)> = names
        .iter()
        .enumerate()
        .map(|(i, n)| (format!("TSK_ADV_{n}"), format!("{}", i + 1)))
        .collect();
    let l = Limits::read(&set);
    assert_eq!(
        l,
        Limits {
            skeleton_head: 1,
            skeleton_tail: 2,
            min_lines: 3,
            route_threshold: 4,
            externalize_threshold: 5,
            sandbox_max_output: 6,
            sandbox_hard_cap: 7,
            sandbox_timeout: 8,
            inject_budget: 9,
            inject_p1_max_chars: 10,
            inject_p2_n: 11,
            inject_p3_n: 12,
            snapshot_max: 13,
            compact_advice_threshold: 14,
        }
    );
}
