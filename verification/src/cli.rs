//! Command-line arguments of the vault tools: generating a test vault, measuring a vault,
//! and running the full round of foundation checks.
use vstd::prelude::*;
use crate::sorted::sviews;
use crate::text::{chars_of, string_of, push_all, push_str, eq_str, decimal, decimal_chars};

verus! {

/// Why text is no unsigned integer, told apart as `str::parse` does: nothing to read, a
/// character that is no digit, or a value too large for the target type.
#[derive(Clone, Copy, Debug, PartialEq, Eq, Structural)]
pub enum IntParseError {
    Empty,
    InvalidDigit,
    PosOverflow,
}

pub open spec fn int_error_message(e: IntParseError) -> Seq<char> {
    match e {
        IntParseError::Empty => "cannot parse integer from empty string"@,
        IntParseError::InvalidDigit => "invalid digit found in string"@,
        IntParseError::PosOverflow => "number too large to fit in target type"@,
    }
}

impl IntParseError {
    /// The message `str::parse` gives for this error.
    pub fn message(&self) -> (r: String)
        ensures
            r@ == int_error_message(*self),
    {
        match self {
            IntParseError::Empty => String::from_str("cannot parse integer from empty string"),
            IntParseError::InvalidDigit => String::from_str("invalid digit found in string"),
            IntParseError::PosOverflow => String::from_str("number too large to fit in target type"),
        }
    }
}

pub open spec fn is_digit(c: char) -> bool {
    '0' <= c && c <= '9'
}

pub open spec fn digit_of(c: char) -> nat {
    ((c as u32) - 48) as nat
}

/// Reads the digits `d` after `acc`, left to right: the first character that is no digit,
/// or the first value above `max`, is the error.
pub open spec fn fold_digits(d: Seq<char>, acc: nat, max: nat) -> Result<nat, IntParseError>
    decreases d.len(),
{
    if d.len() == 0 {
        Ok(acc)
    } else if !is_digit(d[0]) {
        Err(IntParseError::InvalidDigit)
    } else if acc * 10 + digit_of(d[0]) > max {
        Err(IntParseError::PosOverflow)
    } else {
        fold_digits(d.drop_first(), acc * 10 + digit_of(d[0]), max)
    }
}

/// An unsigned integer up to `max` read from `s` as `str::parse` reads it: an optional
/// leading `+`, then decimal digits.
pub open spec fn parse_unsigned(s: Seq<char>, max: nat) -> Result<nat, IntParseError> {
    if s.len() == 0 {
        Err(IntParseError::Empty)
    } else if (s[0] == '+' || s[0] == '-') && s.len() == 1 {
        Err(IntParseError::InvalidDigit)
    } else if s[0] == '+' {
        fold_digits(s.drop_first(), 0, max)
    } else {
        fold_digits(s, 0, max)
    }
}

/// Reads an unsigned integer up to `max` (see `parse_unsigned`).
pub fn parse_unsigned_str(s: &str, max: u64) -> (r: Result<u64, IntParseError>)
    ensures
        match parse_unsigned(s@, max as nat) {
            Ok(v) => r == Ok::<u64, IntParseError>(v as u64) && v <= max,
            Err(e) => r == Err::<u64, IntParseError>(e),
        },
{
    let c = chars_of(s);
    if c.len() == 0 {
        return Err(IntParseError::Empty);
    }
    if (c[0] == '+' || c[0] == '-') && c.len() == 1 {
        return Err(IntParseError::InvalidDigit);
    }
    let start: usize = if c[0] == '+' {
        1
    } else {
        0
    };
    let ghost d = if c@[0] == '+' {
        c@.drop_first()
    } else {
        c@
    };
    assert(c@.skip(start as int) =~= d);
    let mut acc: u64 = 0;
    let mut i: usize = start;
    while i < c.len()
        invariant
            start <= i <= c.len(),
            c@ == s@,
            d == c@.skip(start as int),
            acc <= max,
            parse_unsigned(s@, max as nat) == fold_digits(d, 0, max as nat),
            fold_digits(d, 0, max as nat) == fold_digits(c@.skip(i as int), acc as nat, max as nat),
        decreases c.len() - i,
    {
        let ch = c[i];
        assert(c@.skip(i as int)[0] == ch);
        assert(c@.skip(i as int).drop_first() =~= c@.skip(i + 1));
        if !('0' <= ch && ch <= '9') {
            return Err(IntParseError::InvalidDigit);
        }
        let v: u128 = (acc as u128) * 10 + ((ch as u32) - 48) as u128;
        if v > max as u128 {
            return Err(IntParseError::PosOverflow);
        }
        acc = v as u64;
        i += 1;
    }
    assert(c@.skip(c.len() as int) =~= Seq::<char>::empty());
    Ok(acc)
}

// ---------------------------------------------------------------------------
// gen-vault
// ---------------------------------------------------------------------------
/// What `gen-vault` is asked to do.
pub struct GenVaultArgs {
    pub path: String,
    pub notes: usize,
    pub max_depth: usize,
    pub seed: u64,
    pub clean: bool,
    pub content_min_bytes: usize,
    pub content_max_bytes: usize,
    pub link_percent: u32,
    pub order_take: usize,
}

/// The `gen-vault` settings while the arguments are read.
pub struct GenVaultSpec {
    pub path: Option<Seq<char>>,
    pub notes: nat,
    pub max_depth: nat,
    pub seed: nat,
    pub clean: bool,
    pub content_min: nat,
    pub content_max: nat,
    pub link_percent: nat,
    pub order_take: nat,
}

pub open spec fn gen_vault_defaults() -> GenVaultSpec {
    GenVaultSpec {
        path: None,
        notes: 100_000,
        max_depth: 200,
        seed: 1,
        clean: false,
        content_min: 1024,
        content_max: 4096,
        link_percent: 10,
        order_take: 32,
    }
}

/// The largest value a numeric `gen-vault` option takes.
pub open spec fn gen_vault_max(flag: Seq<char>) -> nat {
    if flag == "--seed"@ {
        u64::MAX as nat
    } else if flag == "--link-percent"@ {
        u32::MAX as nat
    } else {
        usize::MAX as nat
    }
}

pub open spec fn is_gen_vault_number(flag: Seq<char>) -> bool {
    flag == "--notes"@ || flag == "--max-depth"@ || flag == "--seed"@ || flag == "--content-min"@
        || flag == "--content-max"@ || flag == "--link-percent"@ || flag == "--order-take"@
}

pub open spec fn set_gen_vault_number(st: GenVaultSpec, flag: Seq<char>, n: nat) -> GenVaultSpec {
    if flag == "--notes"@ {
        GenVaultSpec { notes: n, ..st }
    } else if flag == "--max-depth"@ {
        GenVaultSpec { max_depth: n, ..st }
    } else if flag == "--seed"@ {
        GenVaultSpec { seed: n, ..st }
    } else if flag == "--content-min"@ {
        GenVaultSpec { content_min: n, ..st }
    } else if flag == "--content-max"@ {
        GenVaultSpec { content_max: n, ..st }
    } else if flag == "--link-percent"@ {
        GenVaultSpec { link_percent: n, ..st }
    } else {
        GenVaultSpec { order_take: n, ..st }
    }
}

/// Reads the `gen-vault` arguments `args` after settings `st`.
pub open spec fn gen_vault_fold(args: Seq<Seq<char>>, st: GenVaultSpec) -> Result<GenVaultSpec, Seq<char>>
    decreases args.len(),
{
    if args.len() == 0 {
        Ok(st)
    } else {
        let a = args[0];
        if a == "--clean"@ {
            gen_vault_fold(args.skip(1), GenVaultSpec { clean: true, ..st })
        } else if a == "--path"@ || is_gen_vault_number(a) {
            if args.len() < 2 {
                Err(a + " requires a value"@)
            } else if a == "--path"@ {
                gen_vault_fold(args.skip(2), GenVaultSpec { path: Some(args[1]), ..st })
            } else {
                match parse_unsigned(args[1], gen_vault_max(a)) {
                    Err(e) => Err(int_error_message(e)),
                    Ok(n) => gen_vault_fold(args.skip(2), set_gen_vault_number(st, a, n)),
                }
            }
        } else {
            Err("unknown gen-vault arg: "@ + a)
        }
    }
}

pub open spec fn path_or_default(p: Option<Seq<char>>) -> Seq<char> {
    match p {
        Some(p) => p,
        None => "Knowledge.vault"@,
    }
}

fn value_error(flag: &[char]) -> (r: String)
    ensures
        r@ == flag@ + " requires a value"@,
{
    let mut m: Vec<char> = Vec::new();
    push_all(&mut m, flag);
    push_str(&mut m, " requires a value");
    string_of(&m)
}

fn prefixed(prefix: &str, arg: &[char]) -> (r: String)
    ensures
        r@ == prefix@ + arg@,
{
    let mut m: Vec<char> = Vec::new();
    push_str(&mut m, prefix);
    push_all(&mut m, arg);
    string_of(&m)
}

/// Reads the arguments of `gen-vault`: `--path P`, `--notes N`, `--max-depth N`,
/// `--seed N`, `--clean`, `--content-min N`, `--content-max N`, `--link-percent N`,
/// `--order-take N`; what is not given keeps its default, the path `Knowledge.vault`.
pub fn parse_gen_vault_args(args: &Vec<String>) -> (r: Result<GenVaultArgs, String>)
    ensures
        match gen_vault_fold(sviews(args@), gen_vault_defaults()) {
            Err(m) => r matches Err(e) && e@ == m,
            Ok(st) => r matches Ok(g) && g.path@ == path_or_default(st.path) && g.notes == st.notes
                && g.max_depth == st.max_depth && g.seed == st.seed && g.clean == st.clean
                && g.content_min_bytes == st.content_min && g.content_max_bytes == st.content_max
                && g.link_percent == st.link_percent && g.order_take == st.order_take,
        },
{
    let ghost av = sviews(args@);
    let mut path: Option<String> = None;
    let mut notes: usize = 100_000;
    let mut max_depth: usize = 200;
    let mut seed: u64 = 1;
    let mut clean = false;
    let mut content_min_bytes: usize = 1024;
    let mut content_max_bytes: usize = 4096;
    let mut link_percent: u32 = 10;
    let mut order_take: usize = 32;
    let mut i: usize = 0;
    assert(av.skip(0) =~= av);
    while i < args.len()
        invariant
            i <= args.len(),
            av == sviews(args@),
            gen_vault_fold(av, gen_vault_defaults()) == gen_vault_fold(
                av.skip(i as int),
                GenVaultSpec {
                    path: match path {
                        Some(p) => Some(p@),
                        None => None,
                    },
                    notes: notes as nat,
                    max_depth: max_depth as nat,
                    seed: seed as nat,
                    clean,
                    content_min: content_min_bytes as nat,
                    content_max: content_max_bytes as nat,
                    link_percent: link_percent as nat,
                    order_take: order_take as nat,
                },
            ),
        decreases args.len() - i,
    {
        let a = chars_of(args[i].as_str());
        let ghost rest = av.skip(i as int);
        assert(rest[0] == a@);
        assert(rest.skip(1) =~= av.skip(i + 1));
        assert(rest.len() >= 2 ==> rest.skip(2) =~= av.skip(i + 2));
        assert(rest.len() >= 2 ==> rest[1] == args@[i + 1]@);
        proof {
            reveal_strlit("--clean");
            reveal_strlit("--path");
            reveal_strlit("--notes");
            reveal_strlit("--max-depth");
            reveal_strlit("--seed");
            reveal_strlit("--content-min");
            reveal_strlit("--content-max");
            reveal_strlit("--link-percent");
            reveal_strlit("--order-take");
        }
        if eq_str(&a, "--clean") {
            clean = true;
            i += 1;
        } else {
            let is_path = eq_str(&a, "--path");
            let is_notes = eq_str(&a, "--notes");
            let is_depth = eq_str(&a, "--max-depth");
            let is_seed = eq_str(&a, "--seed");
            let is_min = eq_str(&a, "--content-min");
            let is_max = eq_str(&a, "--content-max");
            let is_link = eq_str(&a, "--link-percent");
            let is_take = eq_str(&a, "--order-take");
            if !(is_path || is_notes || is_depth || is_seed || is_min || is_max || is_link || is_take) {
                return Err(prefixed("unknown gen-vault arg: ", &a));
            }
            if i + 1 >= args.len() {
                return Err(value_error(&a));
            }
            if is_path {
                path = Some(args[i + 1].clone());
            } else {
                let limit: u64 = if is_seed {
                    u64::MAX
                } else if is_link {
                    u32::MAX as u64
                } else {
                    usize::MAX as u64
                };
                assert(limit as nat == gen_vault_max(a@));
                let n = match parse_unsigned_str(args[i + 1].as_str(), limit) {
                    Ok(n) => n,
                    Err(e) => {
                        return Err(e.message());
                    },
                };
                if is_notes {
                    notes = n as usize;
                } else if is_depth {
                    max_depth = n as usize;
                } else if is_seed {
                    seed = n;
                } else if is_min {
                    content_min_bytes = n as usize;
                } else if is_max {
                    content_max_bytes = n as usize;
                } else if is_link {
                    link_percent = n as u32;
                } else {
                    order_take = n as usize;
                }
            }
            i += 2;
        }
    }
    assert(av.skip(args.len() as int) =~= Seq::<Seq<char>>::empty());
    let path = match path {
        Some(p) => p,
        None => String::from_str("Knowledge.vault"),
    };
    Ok(GenVaultArgs {
        path,
        notes,
        max_depth,
        seed,
        clean,
        content_min_bytes,
        content_max_bytes,
        link_percent,
        order_take,
    })
}


// ---------------------------------------------------------------------------
// perf and foundation-gate
// ---------------------------------------------------------------------------
/// What `perf` is asked to do: the vault, the query, how many times to repeat a measure.
pub struct PerfArgs {
    pub path: String,
    pub query: String,
    pub iterations: usize,
}

/// What `foundation-gate` is asked to do: the vault, the query, how many times to repeat a
/// measure.
pub struct FoundationGateArgs {
    pub path: String,
    pub query: String,
    pub iterations: usize,
}

/// Reads `--path P` (or `--vault P`), `--query Q` and `--iterations N` after the settings
/// (path, query, iterations); `unknown` starts the message for any other argument.
pub open spec fn profile_fold(
    args: Seq<Seq<char>>,
    path: Option<Seq<char>>,
    query: Seq<char>,
    iterations: nat,
    unknown: Seq<char>,
) -> Result<(Option<Seq<char>>, Seq<char>, nat), Seq<char>>
    decreases args.len(),
{
    if args.len() == 0 {
        Ok((path, query, iterations))
    } else {
        let a = args[0];
        if a == "--path"@ || a == "--vault"@ {
            if args.len() < 2 {
                Err("--path requires a value"@)
            } else {
                profile_fold(args.skip(2), Some(args[1]), query, iterations, unknown)
            }
        } else if a == "--query"@ {
            if args.len() < 2 {
                Err("--query requires a value"@)
            } else {
                profile_fold(args.skip(2), path, args[1], iterations, unknown)
            }
        } else if a == "--iterations"@ {
            if args.len() < 2 {
                Err("--iterations requires a value"@)
            } else {
                match parse_unsigned(args[1], usize::MAX as nat) {
                    Err(_) => Err("invalid --iterations: "@ + args[1]),
                    Ok(n) => profile_fold(args.skip(2), path, query, n, unknown),
                }
            }
        } else {
            Err(unknown + a)
        }
    }
}

pub open spec fn at_least_one(n: nat) -> nat {
    if n == 0 {
        1
    } else {
        n
    }
}

fn parse_profile_args(args: &Vec<String>, unknown: &str, default_iterations: usize) -> (r: Result<(String, String, usize), String>)
    ensures
        match profile_fold(sviews(args@), None, "note"@, default_iterations as nat, unknown@) {
            Err(m) => r matches Err(e) && e@ == m,
            Ok((p, q, n)) => r matches Ok(t) && t.0@ == path_or_default(p) && t.1@ == q && t.2 == at_least_one(n),
        },
{
    let ghost av = sviews(args@);
    let mut path: Option<String> = None;
    let mut query = String::from_str("note");
    let mut iterations: usize = default_iterations;
    let mut i: usize = 0;
    assert(av.skip(0) =~= av);
    while i < args.len()
        invariant
            i <= args.len(),
            av == sviews(args@),
            profile_fold(av, None, "note"@, default_iterations as nat, unknown@) == profile_fold(
                av.skip(i as int),
                match path {
                    Some(p) => Some(p@),
                    None => None,
                },
                query@,
                iterations as nat,
                unknown@,
            ),
        decreases args.len() - i,
    {
        let a = chars_of(args[i].as_str());
        let ghost rest = av.skip(i as int);
        assert(rest[0] == a@);
        assert(rest.len() >= 2 ==> rest.skip(2) =~= av.skip(i + 2));
        assert(rest.len() >= 2 ==> rest[1] == args@[i + 1]@);
        if eq_str(&a, "--path") || eq_str(&a, "--vault") {
            if i + 1 >= args.len() {
                return Err(String::from_str("--path requires a value"));
            }
            path = Some(args[i + 1].clone());
        } else if eq_str(&a, "--query") {
            if i + 1 >= args.len() {
                return Err(String::from_str("--query requires a value"));
            }
            query = args[i + 1].clone();
        } else if eq_str(&a, "--iterations") {
            if i + 1 >= args.len() {
                return Err(String::from_str("--iterations requires a value"));
            }
            match parse_unsigned_str(args[i + 1].as_str(), usize::MAX as u64) {
                Ok(n) => {
                    iterations = n as usize;
                },
                Err(_) => {
                    let raw = chars_of(args[i + 1].as_str());
                    return Err(prefixed("invalid --iterations: ", &raw));
                },
            }
        } else {
            return Err(prefixed(unknown, &a));
        }
        i += 2;
    }
    assert(av.skip(args.len() as int) =~= Seq::<Seq<char>>::empty());
    let path = match path {
        Some(p) => p,
        None => String::from_str("Knowledge.vault"),
    };
    let iterations = if iterations == 0 {
        1
    } else {
        iterations
    };
    Ok((path, query, iterations))
}

/// Reads the arguments of `perf` (see `profile_fold`): by default the vault
/// `Knowledge.vault`, the query `note`, 20 iterations; at least one iteration.
pub fn parse_perf_args(args: &Vec<String>) -> (r: Result<PerfArgs, String>)
    ensures
        match profile_fold(sviews(args@), None, "note"@, 20, "unknown perf arg: "@) {
            Err(m) => r matches Err(e) && e@ == m,
            Ok((p, q, n)) => r matches Ok(a) && a.path@ == path_or_default(p) && a.query@ == q && a.iterations
                == at_least_one(n),
        },
{
    match parse_profile_args(args, "unknown perf arg: ", 20) {
        Ok((path, query, iterations)) => Ok(PerfArgs { path, query, iterations }),
        Err(e) => Err(e),
    }
}

/// Reads the arguments of `foundation-gate` (see `profile_fold`): by default the vault
/// `Knowledge.vault`, the query `note`, 10 iterations; at least one iteration.
pub fn parse_foundation_gate_args(args: &Vec<String>) -> (r: Result<FoundationGateArgs, String>)
    ensures
        match profile_fold(sviews(args@), None, "note"@, 10, "unknown foundation-gate arg: "@) {
            Err(m) => r matches Err(e) && e@ == m,
            Ok((p, q, n)) => r matches Ok(a) && a.path@ == path_or_default(p) && a.query@ == q && a.iterations
                == at_least_one(n),
        },
{
    match parse_profile_args(args, "unknown foundation-gate arg: ", 10) {
        Ok((path, query, iterations)) => Ok(FoundationGateArgs { path, query, iterations }),
        Err(e) => Err(e),
    }
}

/// One step of the foundation checks: a program run with its arguments from the workspace
/// root; the run stops at the first step that fails.
pub struct GateStep {
    pub name: String,
    pub program: String,
    pub args: Vec<String>,
}

pub open spec fn gate_step_view(s: GateStep) -> (Seq<char>, Seq<char>, Seq<Seq<char>>) {
    (s.name@, s.program@, sviews(s.args@))
}

pub open spec fn gate_step_views(v: Seq<GateStep>) -> Seq<(Seq<char>, Seq<char>, Seq<Seq<char>>)> {
    v.map_values(|s: GateStep| gate_step_view(s))
}

/// The arguments of the perf baseline script for one baseline profile.
pub open spec fn perf_profile_args(
    vault: Seq<char>,
    query: Seq<char>,
    iterations: Seq<char>,
    profile: Seq<char>,
    report: Seq<char>,
    delta: Seq<char>,
) -> Seq<Seq<char>> {
    seq![
        "scripts/check_perf_baseline.py"@,
        "--vault"@,
        vault,
        "--query"@,
        query,
        "--iterations"@,
        iterations,
        "--retries"@,
        "3"@,
        "--baseline-profile"@,
        profile,
        "--report-out"@,
        report,
        "--previous-report"@,
        report,
        "--delta-report-out"@,
        delta,
    ]
}

/// The foundation checks: the core tests, the UI check, the UI tests built, the tool checked, then the
/// perf baseline in its default and its Windows CI profile.
pub open spec fn gate_steps(vault: Seq<char>, query: Seq<char>, iterations: nat) -> Seq<(Seq<char>, Seq<char>, Seq<Seq<char>>)> {
    seq![
        ("core-tests"@, "cargo"@, seq!["test"@, "-p"@, "xnote-core"@]),
        ("ui-check"@, "cargo"@, seq!["check"@, "-p"@, "xnote-ui"@]),
        ("ui-tests-compile"@, "cargo"@, seq!["test"@, "-p"@, "xnote-ui"@, "--no-run"@]),
        ("xtask-check"@, "cargo"@, seq!["check"@, "-p"@, "xtask"@]),
        ("perf-default-profile"@, "python"@, perf_profile_args(vault, query, decimal(iterations), "default"@,
            "perf/latest-report.json"@, "perf/latest-delta-report.json"@)),
        ("perf-windows-ci-profile"@, "python"@, perf_profile_args(vault, query, decimal(iterations),
            "windows_ci"@, "perf/latest-report-windows-ci.json"@, "perf/latest-delta-report-windows-ci.json"@)),
    ]
}

fn strings(parts: Vec<&str>) -> (r: Vec<String>)
    ensures
        r.len() == parts.len(),
        forall|i: int| 0 <= i < r.len() ==> #[trigger] r@[i]@ == parts@[i]@,
{
    let mut r: Vec<String> = Vec::new();
    let mut i: usize = 0;
    while i < parts.len()
        invariant
            i <= parts.len(),
            r.len() == i,
            forall|k: int| 0 <= k < i ==> #[trigger] r@[k]@ == parts@[k]@,
        decreases parts.len() - i,
    {
        r.push(String::from_str(parts[i]));
        i += 1;
    }
    r
}

fn perf_step(name: &str, args: &FoundationGateArgs, iterations: &String, profile: &str, report: &str, delta: &str) -> (r: GateStep)
    ensures
        gate_step_view(r) == (name@, "python"@, perf_profile_args(args.path@, args.query@, iterations@, profile@, report@, delta@)),
{
    let mut v = strings(vec!["scripts/check_perf_baseline.py", "--vault"]);
    v.push(args.path.clone());
    v.push(String::from_str("--query"));
    v.push(args.query.clone());
    v.push(String::from_str("--iterations"));
    v.push(iterations.clone());
    let tail = strings(vec!["--retries", "3", "--baseline-profile", profile, "--report-out", report, "--previous-report", report, "--delta-report-out", delta]);
    let mut k: usize = 0;
    let ghost head = v@;
    while k < tail.len()
        invariant
            k <= tail.len(),
            v@ == head + tail@.take(k as int),
        decreases tail.len() - k,
    {
        v.push(tail[k].clone());
        assert(tail@.take(k + 1) =~= tail@.take(k as int).push(tail@[k as int]));
        k += 1;
    }
    assert(tail@.take(tail.len() as int) =~= tail@);
    let r = GateStep { name: String::from_str(name), program: String::from_str("python"), args: v };
    assert(sviews(r.args@) =~= perf_profile_args(args.path@, args.query@, iterations@, profile@, report@, delta@));
    r
}

fn cargo_step(name: &str, parts: Vec<&str>) -> (r: GateStep)
    ensures
        r.name@ == name@,
        r.program@ == "cargo"@,
        sviews(r.args@) == parts@.map_values(|p: &str| p@),
{
    let v = strings(parts);
    let r = GateStep { name: String::from_str(name), program: String::from_str("cargo"), args: v };
    assert(sviews(r.args@) =~= parts@.map_values(|p: &str| p@));
    r
}

/// The foundation check steps for these arguments, as `gate_steps` lists them.
pub fn foundation_gate_steps(args: &FoundationGateArgs) -> (r: Vec<GateStep>)
    ensures
        gate_step_views(r@) == gate_steps(args.path@, args.query@, args.iterations as nat),
{
    let it = string_of(&decimal_chars(args.iterations as u128));
    let mut r: Vec<GateStep> = Vec::new();
    r.push(cargo_step("core-tests", vec!["test", "-p", "xnote-core"]));
    r.push(cargo_step("ui-check", vec!["check", "-p", "xnote-ui"]));
    r.push(cargo_step("ui-tests-compile", vec!["test", "-p", "xnote-ui", "--no-run"]));
    r.push(cargo_step("xtask-check", vec!["check", "-p", "xtask"]));
    r.push(perf_step("perf-default-profile", args, &it, "default", "perf/latest-report.json", "perf/latest-delta-report.json"));
    r.push(perf_step("perf-windows-ci-profile", args, &it, "windows_ci", "perf/latest-report-windows-ci.json", "perf/latest-delta-report-windows-ci.json"));
    proof {
        let g = gate_steps(args.path@, args.query@, args.iterations as nat);
        assert(gate_step_views(r@)[0] == g[0]) by {
            assert(sviews(r@[0].args@) =~= seq!["test"@, "-p"@, "xnote-core"@]);
        }
        assert(gate_step_views(r@)[1] == g[1]) by {
            assert(sviews(r@[1].args@) =~= seq!["check"@, "-p"@, "xnote-ui"@]);
        }
        assert(gate_step_views(r@)[2] == g[2]) by {
            assert(sviews(r@[2].args@) =~= seq!["test"@, "-p"@, "xnote-ui"@, "--no-run"@]);
        }
        assert(gate_step_views(r@)[3] == g[3]) by {
            assert(sviews(r@[3].args@) =~= seq!["check"@, "-p"@, "xtask"@]);
        }
        assert(gate_step_views(r@)[4] == g[4]);
        assert(gate_step_views(r@)[5] == g[5]);
        assert(gate_step_views(r@) =~= g);
    }
    r
}

} // verus!
