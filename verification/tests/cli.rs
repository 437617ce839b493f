use ollamux::cli::{parse_args, parse_pct, Command, Config};

fn args(list: &[&str]) -> Vec<String> {
    list.iter().map(|s| s.to_string()).collect()
}

fn run(list: &[&str]) -> Config {
    match parse_args(&args(list), None, None) {
        Ok(Command::Run(cfg)) => cfg,
        other => panic!("expected a configuration, got {other:?}"),
    }
}

fn error(list: &[&str]) -> String {
    parse_args(&args(list), None, None).unwrap_err()
}

#[test]
fn env_var_disables_affinity_without_flag() {
    let cfg = match parse_args(&args(&[]), None, Some("1")).expect("args parse") {
        Command::Run(cfg) => cfg,
        other => panic!("expected a configuration, got {other:?}"),
    };
    assert!(!cfg.affinity, "env alone must disable");

    // Falsy values do not disable.
    for falsy in [None, Some("0"), Some("false"), Some("")] {
        match parse_args(&args(&[]), None, falsy).expect("args parse") {
            Command::Run(cfg) => assert!(cfg.affinity, "{falsy:?} must not disable"),
            other => panic!("expected a configuration, got {other:?}"),
        }
    }
}

#[test]
fn defaults() {
    let cfg = run(&[]);
    assert_eq!(cfg.addr, "127.0.0.1:11435");
    assert_eq!(cfg.keys_path, None);
    assert!(!cfg.verbose);
    assert_eq!(cfg.usage_aware, None);
    assert!(cfg.affinity);
}

#[test]
fn options_take_values_inline_or_next() {
    let cfg = run(&["-a", "0.0.0.0:1", "--keys=/k", "-v", "--no-affinity"]);
    assert_eq!(cfg.addr, "0.0.0.0:1");
    assert_eq!(cfg.keys_path.as_deref(), Some("/k"));
    assert!(cfg.verbose);
    assert!(!cfg.affinity);
    let cfg = run(&["--addr=host:2", "-k", "--verbose", "--verbose"]);
    assert_eq!(cfg.addr, "host:2");
    assert_eq!(cfg.keys_path.as_deref(), Some("--verbose"));
    assert!(cfg.verbose);
    // The last one counts, and a value may hold an equals sign.
    let cfg = run(&["--addr", "a", "--addr=b=c"]);
    assert_eq!(cfg.addr, "b=c");
}

#[test]
fn usage_aware_threshold() {
    assert_eq!(run(&["--usage-aware"]).usage_aware, Some(80));
    assert_eq!(run(&["--usage-aware=90"]).usage_aware, Some(90));
    assert_eq!(run(&["--usage-aware", "55"]).usage_aware, Some(55));
    assert_eq!(run(&["--usage-aware= 75%% "]).usage_aware, Some(75));
    // A flag behind it stays a flag.
    let cfg = run(&["--usage-aware", "-v"]);
    assert_eq!(cfg.usage_aware, Some(80));
    assert!(cfg.verbose);
    assert_eq!(
        error(&["--usage-aware=0"]),
        "invalid --usage-aware threshold 0 (want 1–99: 0 would disable the feature)"
    );
    assert_eq!(
        error(&["--usage-aware", "100"]),
        "invalid --usage-aware threshold 100 (want 1–99: 0 would disable the feature)"
    );
    assert_eq!(
        error(&["--usage-aware=x\"y"]),
        "invalid --usage-aware threshold \"x\\\"y\" (want 1–99)"
    );
    assert_eq!(parse_pct("+7"), Ok(7));
    assert!(parse_pct("-7").is_err());
    assert!(parse_pct("").is_err());
}

#[test]
fn environment_gives_the_threshold_only_without_a_flag() {
    let cfg = |list: &[&str], env: Option<&str>| match parse_args(&args(list), env, None) {
        Ok(Command::Run(cfg)) => cfg.usage_aware,
        other => panic!("expected a configuration, got {other:?}"),
    };
    assert_eq!(cfg(&[], Some("70")), Some(70));
    assert_eq!(cfg(&[], Some("")), None);
    assert_eq!(cfg(&["--usage-aware=90"], Some("70")), Some(90));
    assert_eq!(cfg(&["--usage-aware=90"], Some("nonsense")), Some(90));
    assert!(parse_args(&args(&[]), Some("nonsense"), None).is_err());
}

#[test]
fn help_version_and_errors() {
    for list in [["-h"], ["--help"], ["--help=x"]] {
        assert!(matches!(
            parse_args(&args(&list), Some("nonsense"), None),
            Ok(Command::Help)
        ));
    }
    for list in [["-V"], ["--version"]] {
        assert!(matches!(
            parse_args(&args(&list), None, None),
            Ok(Command::Version)
        ));
    }
    assert_eq!(error(&["-a"]), "missing value for -a");
    assert_eq!(error(&["-v", "--keys"]), "missing value for --keys");
    assert_eq!(error(&["-a=x"]), "unknown argument: \"-a=x\"");
    assert_eq!(error(&["--nope=1"]), "unknown argument: \"--nope=1\"");
    // What comes first decides.
    assert!(matches!(
        parse_args(&args(&["-h", "--nope"]), None, None),
        Ok(Command::Help)
    ));
    assert_eq!(error(&["--nope", "-h"]), "unknown argument: \"--nope\"");
}
