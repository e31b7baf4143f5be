use xnote_core::cli::{
    foundation_gate_steps, parse_foundation_gate_args, parse_gen_vault_args, parse_perf_args,
    parse_unsigned_str, IntParseError,
};

fn args(v: &[&str]) -> Vec<String> {
    v.iter().map(|s| s.to_string()).collect()
}

#[test]
fn gen_vault_args_defaults() {
    let a = parse_gen_vault_args(&Vec::new()).expect("defaults");
    assert_eq!(a.path, "Knowledge.vault");
    assert_eq!(a.notes, 100_000);
    assert_eq!(a.max_depth, 200);
    assert_eq!(a.seed, 1);
    assert!(!a.clean);
    assert_eq!(a.content_min_bytes, 1024);
    assert_eq!(a.content_max_bytes, 4096);
    assert_eq!(a.link_percent, 10);
    assert_eq!(a.order_take, 32);
}

#[test]
fn gen_vault_args_read_every_option() {
    let a = parse_gen_vault_args(&args(&[
        "--path", "V", "--notes", "5", "--max-depth", "+3", "--seed", "18446744073709551615",
        "--clean", "--content-min", "10", "--content-max", "20", "--link-percent", "50",
        "--order-take", "4",
    ]))
    .expect("parse");
    assert_eq!(a.path, "V");
    assert_eq!(a.notes, 5);
    assert_eq!(a.max_depth, 3);
    assert_eq!(a.seed, u64::MAX);
    assert!(a.clean);
    assert_eq!(a.content_min_bytes, 10);
    assert_eq!(a.content_max_bytes, 20);
    assert_eq!(a.link_percent, 50);
    assert_eq!(a.order_take, 4);
}

#[test]
fn gen_vault_args_errors() {
    assert_eq!(
        parse_gen_vault_args(&args(&["--notes"])).err(),
        Some("--notes requires a value".to_string())
    );
    assert_eq!(
        parse_gen_vault_args(&args(&["--notes", "x1"])).err(),
        Some("invalid digit found in string".to_string())
    );
    assert_eq!(
        parse_gen_vault_args(&args(&["--seed", ""])).err(),
        Some("cannot parse integer from empty string".to_string())
    );
    assert_eq!(
        parse_gen_vault_args(&args(&["--link-percent", "4294967296"])).err(),
        Some("number too large to fit in target type".to_string())
    );
    assert_eq!(
        parse_gen_vault_args(&args(&["--bogus"])).err(),
        Some("unknown gen-vault arg: --bogus".to_string())
    );
}

#[test]
fn unsigned_parsing_follows_str_parse() {
    for s in ["0", "7", "+12", "-1", "+", "-", "", "12a", "99999999999999999999"] {
        let ours = parse_unsigned_str(s, u64::MAX);
        let std = s.parse::<u64>();
        match (ours, std) {
            (Ok(a), Ok(b)) => assert_eq!(a, b),
            (Err(e), Err(f)) => assert_eq!(e.message(), f.to_string()),
            (a, b) => panic!("{s}: {a:?} vs {b:?}"),
        }
    }
    assert_eq!(parse_unsigned_str("256", 255), Err(IntParseError::PosOverflow));
}

#[test]
fn perf_args_defaults_and_options() {
    let a = parse_perf_args(&Vec::new()).expect("defaults");
    assert_eq!(a.path, "Knowledge.vault");
    assert_eq!(a.query, "note");
    assert_eq!(a.iterations, 20);
    let b = parse_perf_args(&args(&["--vault", "X", "--query", "q", "--iterations", "0"])).expect("parse");
    assert_eq!(b.path, "X");
    assert_eq!(b.query, "q");
    assert_eq!(b.iterations, 1);
    assert_eq!(
        parse_perf_args(&args(&["--iterations", "abc"])).err(),
        Some("invalid --iterations: abc".to_string())
    );
    assert_eq!(
        parse_perf_args(&args(&["--vault"])).err(),
        Some("--path requires a value".to_string())
    );
    assert_eq!(
        parse_perf_args(&args(&["--x"])).err(),
        Some("unknown perf arg: --x".to_string())
    );
}

#[test]
fn foundation_gate_args_and_steps() {
    let a = parse_foundation_gate_args(&Vec::new()).expect("defaults");
    assert_eq!(a.iterations, 10);
    assert_eq!(
        parse_foundation_gate_args(&args(&["--y"])).err(),
        Some("unknown foundation-gate arg: --y".to_string())
    );
    let g = parse_foundation_gate_args(&args(&["--path", "V", "--query", "q", "--iterations", "3"])).expect("parse");
    let steps = foundation_gate_steps(&g);
    let names: Vec<&str> = steps.iter().map(|s| s.name.as_str()).collect();
    assert_eq!(
        names,
        vec![
            "core-tests",
            "ui-check",
            "ui-tests-compile",
            "xtask-check",
            "perf-default-profile",
            "perf-windows-ci-profile"
        ]
    );
    assert_eq!(steps[0].program, "cargo");
    assert_eq!(steps[0].args, vec!["test", "-p", "xnote-core"]);
    assert_eq!(steps[2].args, vec!["test", "-p", "xnote-ui", "--no-run"]);
    assert_eq!(steps[5].program, "python");
    assert_eq!(
        steps[5].args,
        vec![
            "scripts/check_perf_baseline.py",
            "--vault",
            "V",
            "--query",
            "q",
            "--iterations",
            "3",
            "--retries",
            "3",
            "--baseline-profile",
            "windows_ci",
            "--report-out",
            "perf/latest-report-windows-ci.json",
            "--previous-report",
            "perf/latest-report-windows-ci.json",
            "--delta-report-out",
            "perf/latest-delta-report-windows-ci.json"
        ]
    );
}
