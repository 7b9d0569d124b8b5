use lintus::cli::{entered_key, logout_message, saved_message, selection, status_message, Selection};
use lintus::config::{config_candidates, invalid_yaml, Config};
use lintus::credentials::{key_for_run, ApiKey, Source};
use lintus::files::SourceFile;

use lintus::jev::error::{ApiError, Error as JevError};
use lintus::jev::question::{Noul, Question};
use lintus::progress::Progress;
use lintus::report::{Checked, Failure, Offense, Outcome, Report, Skipped};
use lintus::runner::{assess, build_query, plan, screen, Task};
use lintus::yaml::{load, FloatFact, FloatFacts};

const CONFIG: &str = r#"paths: ["**/*.rb"]
rules:
  no_sleep:
    description: Jobs must not sleep.
    question: Does this file call sleep?
    paths: ["app/jobs/**/*.rb"]
  documented:
    question: Is every class documented?
    offense_when: false
"#;

fn config_in(yaml: &str, root: &str) -> Config {
    let first = load(yaml, &FloatFacts { facts: vec![] }).unwrap();
    let facts: Vec<FloatFact> = first
        .float_literals()
        .into_iter()
        .map(|text| {
            let x: f64 = text.parse().unwrap();
            let id = if x.is_nan() { None } else { Some((x + 0.0).to_bits()) };
            FloatFact { display: format!("{x:?}"), in_unit: (0.0..=1.0).contains(&x), id, text }
        })
        .collect();
    let data = load(yaml, &FloatFacts { facts: facts.clone() }).unwrap();
    Config::from_yaml(data, root.to_string(), &FloatFacts { facts }).unwrap()
}

/// What the API answers for one file: the probability of each rule, or an error.
enum Reply {
    Nouls(&'static [(&'static str, f64)]),
    Fails(JevError),
}

fn check(task: &Task, content: &[u8], max: u64, reply: &Reply) -> Outcome<f64> {
    let path = task.file.path.clone();
    let text = match screen(content.to_vec(), max) {
        Ok(text) => text,
        Err(reason) => return Outcome::Skipped(Skipped { path, reason }),
    };
    build_query(&path, &text, &task.rules).unwrap();
    let nouls = match reply {
        Reply::Nouls(nouls) => nouls,
        Reply::Fails(error) => return Outcome::Failed(Failure { path, error: error.message() }),
    };
    let answers = task
        .rules
        .iter()
        .map(|rule| match nouls.iter().find(|(id, _)| *id == rule.id) {
            Some((_, noul)) => {
                let threshold: f64 = rule.threshold.as_ref().map_or(0.5, |t| t.text.parse().unwrap());
                Ok((*noul > threshold, *noul))
            }
            None => Err(format!("{} has not been answered", rule.id)),
        })
        .collect();
    assess(&path, &task.rules, answers)
}

fn printable(report: &Report<f64>) -> Report<String> {
    let shown = |x: f64| format!("{:?}", (x * 100.0).round() / 100.0);
    Report {
        checked: report
            .checked
            .iter()
            .map(|c| Checked { path: c.path.clone(), answers: c.answers.iter().map(|(r, n)| (r.clone(), shown(*n))).collect() })
            .collect(),
        offenses: report
            .offenses
            .iter()
            .map(|o| Offense { path: o.path.clone(), rule: o.rule.clone(), message: o.message.clone(), noul: shown(o.noul) })
            .collect(),
        skipped: report.skipped.clone(),
        failures: report.failures.clone(),
    }
}

/// One file of each outcome: offenses, clean, skipped, failed.
fn mixed_run() -> Report<f64> {
    let config = config_in(CONFIG, "/project");
    let files: Vec<(&str, &[u8], Reply)> = vec![
        ("app/jobs/a_job.rb", b"sleep 1\n", Reply::Nouls(&[("no_sleep", 0.91234), ("documented", 0.3)])),
        ("lib/ok.rb", b"# Ok\nclass Ok; end\n", Reply::Nouls(&[("documented", 0.9)])),
        ("lib/blob.rb", b"\0\0", Reply::Nouls(&[])),
        ("lib/bad.rb", b"class Bad; end\n", Reply::Fails(JevError::Api(ApiError { status: 500, body: "boom".into() }))),
    ];
    let tasks = plan(&config, files.iter().map(|(path, _, _)| SourceFile::in_working_tree(path)).collect());
    let mut report = Report::new();
    for task in &tasks {
        let (_, content, reply) = files.iter().find(|(path, _, _)| *path == task.file.path).unwrap();
        report.add(check(task, content, config.max_file_size, reply));
    }
    report.sort();
    report
}

#[test]
fn output_text() {
    let report = mixed_run();
    assert_eq!(report.exit_status(), 2);
    assert_eq!(
        lintus::format::text(&printable(&report)),
        "\
app/jobs/a_job.rb: [documented] Is every class documented? (noul 0.3)
app/jobs/a_job.rb: [no_sleep] Jobs must not sleep. (noul 0.91)
lib/blob.rb: skipped, binary file
lib/bad.rb: failed, Jev API error 500: boom

2 files inspected, 2 offenses detected, 1 file skipped, 1 file failed
"
    );
}

#[test]
fn github() {
    let report = mixed_run();
    assert_eq!(report.exit_status(), 2);
    assert_eq!(
        lintus::format::github(&printable(&report)),
        "\
::error file=app/jobs/a_job.rb,title=lintus%3A documented::Is every class documented?
::error file=app/jobs/a_job.rb,title=lintus%3A no_sleep::Jobs must not sleep.
::notice file=lib/blob.rb,title=lintus::Skipped: binary file
::error file=lib/bad.rb,title=lintus%3A request failed::Jev API error 500: boom
2 files inspected, 2 offenses detected, 1 file skipped, 1 file failed
"
    );
}

#[test]
fn nothing_to_check_sends_nothing() {
    let config = config_in(CONFIG, "/project");
    let tasks = plan(&config, vec![SourceFile::in_working_tree("README.md")]);
    assert!(tasks.is_empty());
    let mut progress = Progress::new(tasks.len(), false);
    assert_eq!(progress.start() + &progress.finish(), "");
    let report: Report<f64> = Report::new();
    assert_eq!(report.exit_status(), 0);
    assert_eq!(lintus::format::text(&printable(&report)), "0 files inspected, 0 offenses detected\n");
}

#[test]
fn a_missing_api_key_is_a_usage_error() {
    let error = key_for_run(None, None, None).unwrap_err();
    assert!(error.message().contains("JEV_API_KEY"), "{}", error.message());
}

#[test]
fn without_any_key_the_error_says_how_to_get_one() {
    assert_eq!(
        key_for_run(None, None, None).unwrap_err().message(),
        "no API key: set JEV_API_KEY, pass --api-key, or run `lintus auth login` to save one"
    );
}

#[test]
fn an_empty_key_is_refused() {
    let error = entered_key("\n", true).unwrap_err();
    assert!(error.message().starts_with("no API key given"), "{}", error.message());
}

#[test]
fn login_takes_the_first_piped_line_or_the_typed_key_trimmed() {
    assert_eq!(entered_key("jev_saved_key_1234\n", true).unwrap(), "jev_saved_key_1234");
    assert_eq!(entered_key("  first\r\nsecond\n", true).unwrap(), "first");
    assert_eq!(entered_key("no newline", true).unwrap(), "no newline");
    assert_eq!(entered_key(" typed key \n", false).unwrap(), "typed key");
    assert_eq!(
        entered_key("   ", false).unwrap_err().message(),
        "no API key given: paste it at the prompt, or pipe it in with `lintus auth login < key.txt`"
    );
    assert!(entered_key("\nkey on the second line\n", true).is_err());
}

#[test]
fn auth_says_where_the_key_is() {
    let file = "/home/u/.config/lintus/credentials.json";
    assert_eq!(saved_message("jev_saved_key_1234", file), format!("Saved the API key (jev…1234) to {file}\n"));
    let saved = ApiKey { key: "jev_saved_key_1234".into(), source: Source::File(file.into()) };
    assert_eq!(status_message(&saved, Some(file)), format!("Using the API key saved in {file} (jev…1234).\n"));
    let env = ApiKey { key: "jev_from_env_5678".into(), source: Source::Env };
    assert_eq!(
        status_message(&env, Some(file)),
        format!("Using the API key from JEV_API_KEY (jev…5678).\nThe key saved in {file} is not used while JEV_API_KEY is set.\n")
    );
    let flag = ApiKey { key: "short".into(), source: Source::Flag };
    assert_eq!(status_message(&flag, None), "Using the API key from --api-key (*****).\n");
    assert_eq!(logout_message(Some(file)), format!("Deleted the API key saved in {file}\n"));
    assert_eq!(logout_message(None), "No API key was saved.\n");
}

#[test]
fn staged_then_diff_then_files_then_the_whole_tree() {
    assert!(matches!(selection(true, Some("main".into()), true), Selection::Staged));
    assert!(matches!(selection(false, Some("main".into()), true), Selection::Diff(r) if r == "main"));
    assert!(matches!(selection(false, None, true), Selection::Explicit));
    assert!(matches!(selection(false, None, false), Selection::All));
}

#[test]
fn every_config_file_name_is_recognised_in_order() {
    let candidates = config_candidates("/project");
    assert_eq!(
        &candidates[..4],
        ["/project/.lintus.yml", "/project/lintus.yml", "/project/.lintus.yaml", "/project/lintus.yaml"]
    );
    let names = ["lintus.yaml", ".lintus.yaml", "lintus.yml", ".lintus.yml"];
    let mut present: Vec<String> = Vec::new();
    for (i, name) in names.iter().enumerate() {
        present.push(format!("/project/{name}"));
        let found = candidates.iter().find(|c| present.contains(c)).unwrap();
        assert_eq!(found, &format!("/project/{name}"), "{name}");
        let config = config_in(&format!("rules:\n  from_{i}:\n    question: q\n"), "/project");
        let tasks = plan(&config, vec![SourceFile::in_working_tree("a.rb")]);
        assert_eq!(lintus::cli::list_output(&tasks), format!("a.rb: from_{i}\n1 file(s) would be checked\n"));
    }
}

#[test]
fn invalid_yaml_is_reported() {
    let error = load("rules: [\n", &FloatFacts { facts: vec![] }).unwrap_err();
    let reported = invalid_yaml("/project/.lintus.yml", &error);
    assert!(reported.message().starts_with("/project/.lintus.yml is not valid YAML: "), "{}", reported.message());
}

#[test]
fn rules_are_asked_in_config_order_with_their_question_criteria_and_nothing_else() {
    let config = config_in(
        r#"
rules:
  zeta:
    question: "  Is this the last letter?  "
    threshold: 0.9
  alpha:
    description: Described.
    question: Is this the first letter?
    criteria:
      "true": Yes it is.
      false: No it is not.
"#,
        "/project",
    );
    let tasks = plan(&config, vec![SourceFile::in_working_tree("a.rb")]);
    let query = build_query("a.rb", "class A; end\n", &tasks[0].rules).unwrap();
    let questions = query.questions();
    let ids: Vec<&str> = questions.iter().map(|(id, _)| *id).collect();
    assert_eq!(ids, ["zeta", "alpha"]);
    let Question::Noul(zeta) = questions[0].1 else { panic!("zeta is a noul") };
    assert_eq!(zeta.instructions(), "Is this the last letter?");
    assert!(zeta.criteria().is_none());
    assert_eq!(zeta.threshold().text, "0.9");
    let Question::Noul(alpha) = questions[1].1 else { panic!("alpha is a noul") };
    assert_eq!(alpha.instructions(), "Is this the first letter?");
    let criteria: Vec<(&str, &str)> =
        alpha.criteria().unwrap().iter().map(|(k, v)| (k.as_str(), v.as_str())).collect();
    assert_eq!(criteria, [("true", "Yes it is."), ("false", "No it is not.")]);
    assert_eq!(alpha.threshold().text, "0.5");
}

#[test]
fn a_noul_question_is_made_from_a_noul() {
    let question = Question::from(Noul::new("q".to_string()));
    assert_eq!(question.kind_name(), "noul");
    assert_eq!(question.instructions(), "q");
}

#[test]
fn a_client_error_stops_the_run_with_its_message() {
    let error = lintus::error::Error::from(JevError::Transport("connection refused".into()));
    assert_eq!(error.message(), "could not reach the Jev API: connection refused");
    let error = lintus::error::Error::from(JevError::MissingApiKey);
    assert_eq!(error.message(), "missing API key: pass the key of your Typesafe account to Client::new");
}
