use lintus::config::Config;
use lintus::credentials::{key_for_run, resolve, Source};
use lintus::files::SourceFile;
use lintus::format::{github, text, Format};
use lintus::jev::error::{ApiError, Error as JevError};
use lintus::progress::Progress;
use lintus::report::{Checked, Failure, Offense, Outcome, Report, Skipped};
use lintus::runner::{assess, build_query, job_count, plan, screen, should_retry, Task, RETRIES};
use lintus::yaml::{load, FloatFact, FloatFacts};

const CONFIG: &str = r#"paths: ["**/*.rb"]
rules:
  no_sleep:
    description: Jobs must not sleep.
    question: Does this file call sleep?
    paths: ["app/jobs/**/*.rb"]
  documented:
    question: Is every class documented?
    offense_when: false
"#;

fn config(yaml: &str) -> Config {
    let first = load(yaml, &FloatFacts { facts: vec![] }).unwrap();
    let facts: Vec<FloatFact> = first
        .float_literals()
        .into_iter()
        .map(|text| {
            let x: f64 = text.parse().unwrap();
            let id = if x.is_nan() { None } else { Some((x + 0.0).to_bits()) };
            FloatFact { display: format!("{x:?}"), in_unit: (0.0..=1.0).contains(&x), id, text }
        })
        .collect();
    let data = load(yaml, &FloatFacts { facts: facts.clone() }).unwrap();
    Config::from_yaml(data, "/project".to_string(), &FloatFacts { facts }).unwrap()
}

/// How a probability is printed in the text format, for the values used here.
fn shown(x: f64) -> String {
    format!("{:?}", (x * 100.0).round() / 100.0)
}

/// Checks one planned file against the model's probabilities, by rule id.
fn check(task: &Task, content: &[u8], max: u64, nouls: &[(&str, f64)]) -> Outcome<f64> {
    let path = task.file.path.clone();
    let text = match screen(content.to_vec(), max) {
        Ok(text) => text,
        Err(reason) => return Outcome::Skipped(Skipped { path, reason }),
    };
    let query = build_query(&path, &text, &task.rules).unwrap();
    assert_eq!(query.state(), format!("File: {path}\n\n{text}"));
    let answers = task
        .rules
        .iter()
        .map(|rule| match nouls.iter().find(|(id, _)| *id == rule.id) {
            Some((_, noul)) => {
                let threshold: f64 = rule.threshold.as_ref().map_or(0.5, |t| t.text.parse().unwrap());
                Ok((*noul > threshold, *noul))
            }
            None => Err(format!("{} has not been answered", rule.id)),
        })
        .collect();
    assess(&path, &task.rules, answers)
}

fn printable(report: &Report<f64>) -> Report<String> {
    Report {
        checked: report
            .checked
            .iter()
            .map(|c| Checked { path: c.path.clone(), answers: c.answers.iter().map(|(r, n)| (r.clone(), shown(*n))).collect() })
            .collect(),
        offenses: report
            .offenses
            .iter()
            .map(|o| Offense { path: o.path.clone(), rule: o.rule.clone(), message: o.message.clone(), noul: shown(o.noul) })
            .collect(),
        skipped: report.skipped.clone(),
        failures: report.failures.clone(),
    }
}

fn run(config: &Config, files: &[(&str, &[u8])], nouls: &[(&str, f64)]) -> Report<f64> {
    let sources = files.iter().map(|(path, _)| SourceFile::in_working_tree(path)).collect();
    let tasks = plan(config, sources);
    let mut report = Report::new();
    for task in &tasks {
        let content = files.iter().find(|(path, _)| *path == task.file.path).unwrap().1;
        report.add(check(task, content, config.max_file_size, nouls));
    }
    report.sort();
    report
}

#[test]
fn a_full_run_reports_offenses_and_exits_1() {
    let config = config(CONFIG);
    let files: &[(&str, &[u8])] = &[("app/jobs/a_job.rb", b"sleep 1\n")];
    let report = run(&config, files, &[("no_sleep", 0.95), ("documented", 0.9)]);

    assert_eq!(report.exit_status(), 1);
    assert_eq!(
        text(&printable(&report)),
        "app/jobs/a_job.rb: [no_sleep] Jobs must not sleep. (noul 0.95)\n\n1 file inspected, 1 offense detected\n"
    );
    let mut progress = Progress::new(1, false);
    assert_eq!(progress.start() + &progress.update(1) + &progress.finish(), "Checking 1 file...\n");
}

#[test]
fn a_clean_run_exits_0() {
    let config = config(CONFIG);
    let files: &[(&str, &[u8])] = &[("lib/b.rb", b"# B\nclass B; end\n")];
    let report = run(&config, files, &[("documented", 0.9)]);

    assert_eq!(report.exit_status(), 0);
    assert_eq!(text(&printable(&report)), "1 file inspected, 0 offenses detected\n");
}

#[test]
fn threshold_and_offense_when_decide_the_offense() {
    let config = config(
        r#"
paths: ["*.rb"]
rules:
  default_below:
    question: q
  default_at:
    question: q
  default_above:
    question: q
  strict_below:
    question: q
    threshold: 0.7
  strict_above:
    question: q
    threshold: 0.7
  negative_true:
    question: q
    offense_when: false
  negative_false:
    question: q
    offense_when: false
"#,
    );
    let files: &[(&str, &[u8])] = &[("a.rb", b"class A; end\n")];
    let report = run(
        &config,
        files,
        &[
            ("default_below", 0.4),
            ("default_at", 0.5),
            ("default_above", 0.51),
            ("strict_below", 0.69),
            ("strict_above", 0.71),
            ("negative_true", 0.9),
            ("negative_false", 0.2),
        ],
    );

    assert_eq!(report.exit_status(), 1);
    assert_eq!(
        text(&printable(&report)),
        "a.rb: [default_above] q (noul 0.51)\n\
         a.rb: [negative_false] q (noul 0.2)\n\
         a.rb: [strict_above] q (noul 0.71)\n\
         \n\
         1 file inspected, 3 offenses detected\n"
    );
}

#[test]
fn the_default_max_file_size_is_100000_bytes() {
    let config = config(CONFIG);
    let big = "x".repeat(100_001);
    let ok = "x".repeat(100_000);
    let files: &[(&str, &[u8])] = &[("lib/big.rb", big.as_bytes()), ("lib/ok.rb", ok.as_bytes())];
    let report = run(&config, files, &[("documented", 0.9)]);

    assert_eq!(
        text(&printable(&report)),
        "lib/big.rb: skipped, larger than max_file_size (100001 > 100000 bytes)\n\n1 file inspected, 0 offenses detected, 1 file skipped\n"
    );
}

#[test]
fn binary_and_oversized_files_are_skipped_without_a_request() {
    let config = config(&format!("max_file_size: 10\n{CONFIG}"));
    let big = "x".repeat(11);
    let limit = "x".repeat(10);
    let files: &[(&str, &[u8])] = &[
        ("lib/bin.rb", b"ab\0cd"),
        ("lib/latin1.rb", b"caf\xe9\n"),
        ("lib/big.rb", big.as_bytes()),
        ("lib/limit.rb", limit.as_bytes()),
        ("lib/utf8.rb", "café\n".as_bytes()),
    ];
    let report = run(&config, files, &[("documented", 0.9)]);

    assert_eq!(
        text(&printable(&report)),
        "\
lib/big.rb: skipped, larger than max_file_size (11 > 10 bytes)
lib/bin.rb: skipped, binary file
lib/latin1.rb: skipped, binary file

2 files inspected, 0 offenses detected, 3 files skipped
"
    );
}

#[test]
fn a_rule_left_unanswered_fails_the_file() {
    let config = config(CONFIG);
    let files: &[(&str, &[u8])] = &[("app/jobs/a_job.rb", b"class AJob; end\n")];
    let report = run(&config, files, &[("no_sleep", 0.9)]);

    assert_eq!(report.exit_status(), 2);
    assert_eq!(
        text(&printable(&report)),
        "app/jobs/a_job.rb: failed, documented has not been answered\n\n0 files inspected, 0 offenses detected, 1 file failed\n"
    );
}

#[test]
fn progress_is_one_line_on_stderr_off_a_terminal() {
    let mut progress = Progress::new(2, false);
    let mut out = progress.start();
    out += &progress.update(1);
    out += &progress.update(2);
    out += &progress.finish();
    assert_eq!(out, "Checking 2 files...\n");
}

#[test]
fn off_a_terminal_prints_one_line_and_never_redraws() {
    let mut progress = Progress::new(3, false);
    let mut out = progress.start();
    out += &progress.update(1);
    out += &progress.update(3);
    out += &progress.finish();
    assert_eq!(out, "Checking 3 files...\n");
}

#[test]
fn on_a_terminal_redraws_in_place_and_clears_when_done() {
    let mut progress = Progress::new(12, true);
    let mut out = progress.start();
    out += &progress.update(1);
    out += &progress.update(12);
    out += &progress.finish();
    let frames: Vec<_> = out.split('\r').filter(|frame| !frame.is_empty()).collect();
    assert_eq!(frames, ["Checking 0/12 files", "Checking 1/12 files", "Checking 12/12 files", &" ".repeat(20)]);
    assert!(out.ends_with('\r'));
}

#[test]
fn a_shorter_frame_covers_the_longest_one_drawn_before() {
    let mut progress = Progress::new(10, true);
    let mut out = progress.start();
    out += &progress.update(10);
    out += &progress.update(9);
    out += &progress.update(3);
    assert_eq!(out, "\rChecking 0/10 files\rChecking 10/10 files\rChecking 9/10 files \rChecking 3/10 files ");
}

#[test]
fn says_nothing_when_there_is_nothing_to_check() {
    let mut progress = Progress::new(0, true);
    let out = progress.start() + &progress.finish();
    assert!(out.is_empty());
}

#[test]
fn the_api_key_flag_wins_over_the_environment() {
    let key = resolve(Some("from-flag".into()), Some("test-key".into()), None).unwrap();
    assert_eq!(format!("Bearer {}", key.key), "Bearer from-flag");
    assert_eq!(key.source, Source::Flag);
    let key = resolve(None, Some("test-key".into()), None).unwrap();
    assert_eq!(format!("Bearer {}", key.key), "Bearer test-key");
    assert_eq!(key.source, Source::Env);
}

#[test]
fn an_empty_api_key_counts_as_missing() {
    let error = key_for_run(None, Some(String::new()), None).unwrap_err();
    assert!(error.message().contains("JEV_API_KEY"), "{}", error.message());
    assert!(format!("lintus: {}", error.message()).starts_with("lintus: "));
}

#[test]
fn the_environment_and_the_flag_win_over_the_saved_key() {
    let saved = Some(("saved-key".to_string(), "/home/u/.config/lintus/credentials.json".to_string()));
    assert_eq!(resolve(None, None, saved.clone()).unwrap().source, Source::File("/home/u/.config/lintus/credentials.json".into()));
    assert_eq!(resolve(None, Some("env-key".into()), saved.clone()).unwrap().key, "env-key");
    assert_eq!(resolve(None, Some(String::new()), saved.clone()).unwrap().key, "saved-key");
    assert_eq!(resolve(Some("flag-key".into()), Some("env-key".into()), saved).unwrap().key, "flag-key");
    assert!(resolve(None, None, None).is_none());
}

#[test]
fn format_takes_text_github_or_json() {
    for name in ["text", "github", "json"] {
        assert!(Format::from_name(name).is_some(), "{name}");
    }
    assert_eq!(Format::from_name("json"), Some(Format::Json));
    assert_eq!(Format::from_name("xml"), None);
    assert_eq!(Format::names(), ["text", "github", "json"]);
}

#[test]
fn the_github_format_is_the_default_under_github_actions() {
    assert_eq!(lintus::cli::choose_format(None, Some("true")), Format::Github);
    assert_eq!(lintus::cli::choose_format(Some("text"), Some("true")), Format::Text);
    assert_eq!(lintus::cli::choose_format(None, None), Format::Text);

    let config = config(CONFIG);
    let files: &[(&str, &[u8])] = &[("lib/b.rb", b"class B; end\n")];
    let report = printable(&run(&config, files, &[("documented", 0.1)]));
    assert_eq!(
        github(&report),
        "::error file=lib/b.rb,title=lintus%3A documented::Is every class documented?\n1 file inspected, 1 offense detected\n"
    );
    assert!(text(&report).starts_with("lib/b.rb: [documented]"));
}

#[test]
fn rate_limits_and_overload_are_retried_up_to_the_limit() {
    let limited = JevError::Api(ApiError { status: 429, body: "slow down".into() });
    let overloaded = JevError::Api(ApiError { status: 529, body: "overloaded".into() });
    let refused = JevError::Api(ApiError { status: 401, body: "bad key".into() });
    assert!(should_retry(&limited, 0, RETRIES));
    assert!(should_retry(&overloaded, 2, RETRIES));
    assert!(!should_retry(&overloaded, 3, RETRIES));
    assert!(!should_retry(&refused, 0, RETRIES));
    assert!(!should_retry(&JevError::Transport("down".into()), 0, RETRIES));
}

#[test]
fn jobs_below_one_mean_one() {
    assert_eq!(job_count(0), 1);
    assert_eq!(job_count(-5), 1);
    assert_eq!(job_count(3), 3);
    assert_eq!(job_count(5000), 1024);
}

#[test]
fn plan_drops_files_no_rule_covers() {
    let config = config(CONFIG);
    let sources = ["a.rb", "README.md", "lib/b.rb"].iter().map(|p| SourceFile::in_working_tree(p)).collect();
    let tasks = plan(&config, sources);
    let planned: Vec<_> = tasks.iter().map(|task| task.file.path.as_str()).collect();
    assert_eq!(planned, ["a.rb", "lib/b.rb"]);
}

#[test]
fn a_repeated_rule_id_fails_the_query() {
    let config = config("rules:\n  once:\n    question: q\n");
    let rules = vec![&config.rules[0], &config.rules[0]];
    let error = build_query("a.rb", "x", &rules).unwrap_err();
    assert_eq!(error, "once has already been asked");
}

#[test]
fn exit_status() {
    let mut report: Report<f64> = Report::new();
    assert_eq!(report.exit_status(), 0);
    report.offenses.push(Offense { path: "a.rb".into(), rule: "r".into(), message: String::new(), noul: 0.9 });
    assert_eq!(report.exit_status(), 1);
    report.failures.push(Failure { path: "b.rb".into(), error: "boom".into() });
    assert_eq!(report.exit_status(), 2);
}

#[test]
fn offenses_sort_by_path_then_rule() {
    let offense = |path: &str, rule: &str| Offense { path: path.into(), rule: rule.into(), message: String::new(), noul: 0.9 };
    let mut report = Report::new();
    report.offenses = vec![offense("b.rb", "no_sleep"), offense("a.rb", "no_sleep"), offense("a.rb", "documented")];
    report.sort();
    let order: Vec<_> = report.offenses.iter().map(|o| (o.path.as_str(), o.rule.as_str())).collect();
    assert_eq!(order, [("a.rb", "documented"), ("a.rb", "no_sleep"), ("b.rb", "no_sleep")]);
}
