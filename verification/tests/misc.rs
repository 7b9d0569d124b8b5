use lintus::cli::{check_file_args, list_output, usage_message};
use lintus::credentials::mask;
use lintus::files::{root_relative, sort_unique, walked, SourceFile};
use lintus::format::github;
use lintus::jev::error::{ApiError, ApiErrorKind, Error as JevError};
use lintus::jev::query::Query;
use lintus::jev::question::{Choice, Noul, Question, Score};
use lintus::paths::{normalize, relative};
use lintus::report::{Checked, Failure, Offense, Report, Skipped};

#[test]
fn normalize_folds_dots_without_touching_the_filesystem() {
    assert_eq!(normalize("/a/b/../c/./d"), "/a/c/d");
    assert_eq!(normalize("/a/.."), "/");
}

#[test]
fn relative_paths_use_forward_slashes() {
    assert_eq!(relative("/root/app/x.rb", "/root").as_deref(), Some("app/x.rb"));
    assert_eq!(relative("/root", "/root").as_deref(), Some("."));
    assert_eq!(relative("/other/x.rb", "/root").as_deref(), Some("../other/x.rb"));
    assert_eq!(relative("/rooted/x.rb", "/root").as_deref(), Some("../rooted/x.rb"));
}

#[test]
fn relative_refuses_paths_without_a_common_root() {
    assert_eq!(relative("/a", "b"), None);
    assert_eq!(normalize("a/../.."), "..");
    assert_eq!(normalize("x//y/"), "x/y");
}

#[test]
fn mask_shows_only_the_ends_of_long_keys() {
    assert_eq!(mask("jev_1234567890abcdef"), "jev…cdef");
    assert_eq!(mask("short"), "*****");
    assert_eq!(mask("elevenchars"), "********");
}

#[test]
fn a_score_takes_2_to_10_levels() {
    let error = Score::new("q".into(), vec!["one".into()]).unwrap_err();
    assert_eq!(error.message(), "a score question takes 2 to 10 levels, got 1");
    assert!(Score::new("q".into(), (0..11).map(|i| i.to_string()).collect()).is_err());
    assert!(Score::new("q".into(), (0..10).map(|i| i.to_string()).collect()).is_ok());
}

#[test]
fn a_choice_takes_1_to_255_options() {
    let error = Choice::new("q".into(), vec![]).unwrap_err();
    assert_eq!(error.message(), "a choice question takes 1 to 255 options, got 0");
    assert!(Choice::new("q".into(), (0..256).map(|i| (i.to_string(), "x".to_string())).collect()).is_err());
    assert!(Choice::new("q".into(), (0..255).map(|i| (i.to_string(), "x".to_string())).collect()).is_ok());
}

#[test]
fn criteria_keep_their_order() {
    let noul = Noul::new("q".into()).with_criterion("false".into(), "f".into()).with_criterion("true".into(), "t".into());
    let keys: Vec<_> = noul.criteria().unwrap().keys().cloned().collect();
    assert_eq!(keys, ["false", "true"]);
    let noul = Noul::new("q".into()).with_criteria("yes".into(), "no".into());
    let pairs: Vec<_> = noul.criteria().unwrap().iter().map(|(k, v)| (k.as_str(), v.as_str())).collect();
    assert_eq!(pairs, [("true", "yes"), ("false", "no")]);
    assert_eq!(noul.threshold().text, "0.5");
}

#[test]
fn questions_keep_the_order_they_were_asked_in() {
    let mut query = Query::new("state".into());
    query.ask("b".into(), Question::Noul(Noul::new("q1".into()))).unwrap();
    query.ask("a".into(), Question::Noul(Noul::new("q2".into()))).unwrap();

    let ids: Vec<_> = query.questions().into_iter().map(|(id, _)| id).collect();
    assert_eq!(ids, ["b", "a"]);
    assert_eq!(query.question("a").unwrap().instructions(), "q2");
    assert_eq!(query.question("a").unwrap().kind_name(), "noul");
}

#[test]
fn an_identifier_can_only_be_asked_once() {
    let mut query = Query::new("state".into());
    query.ask("a".into(), Question::Noul(Noul::new("q".into()))).unwrap();

    let error = query.ask("a".into(), Question::Noul(Noul::new("again".into()))).unwrap_err();
    assert_eq!(error.message(), "a has already been asked");
    assert_eq!(query.question("a").unwrap().instructions(), "q");
}

#[test]
fn api_errors_say_what_they_are_and_whether_to_retry() {
    let error = |status| JevError::Api(ApiError { status, body: "b".into() });
    assert_eq!(ApiError { status: 401, body: String::new() }.kind(), ApiErrorKind::Authentication);
    assert_eq!(ApiError { status: 422, body: String::new() }.kind(), ApiErrorKind::Validation);
    assert_eq!(ApiError { status: 429, body: String::new() }.kind(), ApiErrorKind::RateLimit);
    assert_eq!(ApiError { status: 529, body: String::new() }.kind(), ApiErrorKind::Overloaded);
    assert_eq!(ApiError { status: 500, body: String::new() }.kind(), ApiErrorKind::Other);
    assert!(error(429).is_retryable());
    assert!(error(529).is_retryable());
    assert!(!error(500).is_retryable());
    assert!(!JevError::MissingApiKey.is_retryable());
    assert_eq!(error(500).message(), "Jev API error 500: b");
    assert_eq!(error(500).api().unwrap().status, 500);
    assert!(JevError::Unanswered("x".into()).api().is_none());
    assert_eq!(JevError::Transport("refused".into()).message(), "could not reach the Jev API: refused");
    assert_eq!(
        JevError::WrongType { id: "team".into(), asked: "choice", requested: "noul" }.message(),
        "team was asked as a choice question, not a noul one"
    );
    assert_eq!(lintus::jev::error::missing_answer(Some("choice"), "team", "noul").message(), "team was asked as a choice question, not a noul one");
    assert_eq!(lintus::jev::error::missing_answer(None, "never_asked", "noul").message(), "never_asked has not been answered");
}

fn sample() -> Report<String> {
    let mut report = Report {
        checked: vec![
            Checked { path: "lib/ok.rb".into(), answers: vec![("no_sleep".into(), "0.01".into()), ("documented".into(), "0.9".into())] },
            Checked { path: "app/jobs/a_job.rb".into(), answers: vec![] },
        ],
        offenses: vec![
            Offense { path: "app/jobs/a_job.rb".into(), rule: "no_sleep".into(), message: "Jobs must not sleep.".into(), noul: "0.91".into() },
            Offense { path: "app/jobs/a_job.rb".into(), rule: "documented".into(), message: "Classes carry a comment.".into(), noul: "0.3".into() },
        ],
        skipped: vec![Skipped { path: "lib/blob.rb".into(), reason: "binary file".into() }],
        failures: vec![Failure { path: "lib/bad.rb".into(), error: "Jev API error 500: boom".into() }],
    };
    report.sort();
    report
}

#[test]
fn format_text() {
    assert_eq!(
        lintus::format::text(&sample()),
        "\
app/jobs/a_job.rb: [documented] Classes carry a comment. (noul 0.3)
app/jobs/a_job.rb: [no_sleep] Jobs must not sleep. (noul 0.91)
lib/blob.rb: skipped, binary file
lib/bad.rb: failed, Jev API error 500: boom

2 files inspected, 2 offenses detected, 1 file skipped, 1 file failed
"
    );
    assert_eq!(lintus::format::text(&Report::new()), "0 files inspected, 0 offenses detected\n");
}

#[test]
fn github_emits_workflow_commands() {
    let output = github(&sample());
    let lines: Vec<_> = output.lines().collect();

    assert_eq!(lines[0], "::error file=app/jobs/a_job.rb,title=lintus%3A documented::Classes carry a comment.");
    assert_eq!(lines[1], "::error file=app/jobs/a_job.rb,title=lintus%3A no_sleep::Jobs must not sleep.");
    assert_eq!(lines[2], "::notice file=lib/blob.rb,title=lintus::Skipped: binary file");
    assert_eq!(lines[3], "::error file=lib/bad.rb,title=lintus%3A request failed::Jev API error 500: boom");
    assert_eq!(lines[4], "2 files inspected, 2 offenses detected, 1 file skipped, 1 file failed");
}

#[test]
fn github_escapes_newlines_and_percent_in_messages() {
    let mut report = Report::new();
    report.checked.push(Checked { path: "a.rb".into(), answers: vec![] });
    report.offenses.push(Offense { path: "a.rb".into(), rule: "r".into(), message: "100%\nsure".into(), noul: "1.0".to_string() });
    assert_eq!(github(&report), "::error file=a.rb,title=lintus%3A r::100%25%0Asure\n1 file inspected, 1 offense detected\n");
}

#[test]
fn github_escapes_messages_and_properties() {
    let mut report = Report::new();
    report.checked.push(Checked { path: "lib/a,b:c.rb".into(), answers: vec![] });
    report.offenses.push(Offense {
        path: "lib/a,b:c.rb".into(),
        rule: "r".into(),
        message: "100%\nsure, really: yes\r".into(),
        noul: "1.0".to_string(),
    });
    report.failures.push(Failure { path: "lib/fail.rb".into(), error: "Jev API error 500: line 1\nline 2: 50%".into() });
    assert_eq!(
        github(&report),
        "\
::error file=lib/a%2Cb%3Ac.rb,title=lintus%3A r::100%25%0Asure, really: yes%0D
::error file=lib/fail.rb,title=lintus%3A request failed::Jev API error 500: line 1%0Aline 2: 50%25
1 file inspected, 1 offense detected, 1 file failed
"
    );
}

#[test]
fn file_arguments_cannot_be_combined_with_diff_or_staged() {
    for (diff, staged) in [(false, true), (true, false)] {
        let error = check_file_args(true, diff, staged).unwrap_err();
        assert!(error.message().contains("cannot be combined"), "{}", error.message());
    }
    assert!(check_file_args(true, false, false).is_ok());
    assert!(check_file_args(false, true, true).is_ok());
}

#[test]
fn usage_errors_keep_the_first_paragraph_without_the_prefix() {
    assert_eq!(
        usage_message("error: unexpected argument '--no-such-flag' found\n\nUsage: lintus [OPTIONS] [FILE]...\n"),
        "unexpected argument '--no-such-flag' found"
    );
    assert_eq!(usage_message("plain message  \n"), "plain message");
}

#[test]
fn sources_are_sorted_and_unique() {
    let paths = sort_unique(vec!["b.rb".into(), "a.rb".into(), "b.rb".into(), "A.rb".into(), "a".into()]);
    assert_eq!(paths, ["A.rb", "a", "a.rb", "b.rb"]);
    assert!(SourceFile::in_index("x.rb").from_index());
    assert!(!SourceFile::in_working_tree("x.rb").from_index());
}

#[test]
fn explicit_paths_outside_the_root_are_rejected() {
    assert_eq!(root_relative("/p/app/jobs", "/p").unwrap(), "app/jobs");
    assert_eq!(root_relative("/p", "/p").unwrap(), ".");
    let error = root_relative("/outer.rb", "/inner").unwrap_err();
    assert_eq!(format!("lintus: {}\n", error.message()), "lintus: /outer.rb is outside the config root /inner\n");
    assert!(root_relative("/p/..x", "/p").is_ok());
}

#[test]
fn outside_git_the_tree_is_walked_including_dotfiles() {
    let found = vec![".lintus.yml".into(), "a.rb".into(), "sub/.hidden".into(), ".git".into(), ".git/HEAD".into(), ".gitignore".into()];
    let mut paths = walked(found, ".");
    paths = sort_unique(paths);
    assert_eq!(paths, [".gitignore", ".lintus.yml", "a.rb", "sub/.hidden"]);
    assert_eq!(walked(vec!["c.rb".into()], "sub/deeper"), ["sub/deeper/c.rb"]);
}

#[test]
fn list_with_nothing_to_check() {
    assert_eq!(list_output(&vec![]), "0 file(s) would be checked\n");
}

#[test]
fn files_are_listed_in_path_order_whatever_order_they_finished() {
    let skipped = |path: &str| Skipped { path: path.into(), reason: "binary file".into() };
    let failed = |path: &str| Failure { path: path.into(), error: "boom".into() };
    let mut first: Report<f64> = Report::new();
    first.skipped = vec![skipped("c.rb"), skipped("a.rb"), skipped("b.rb")];
    first.failures = vec![failed("z.rb"), failed("y.rb")];
    let mut second: Report<f64> = Report::new();
    second.skipped = vec![skipped("b.rb"), skipped("c.rb"), skipped("a.rb")];
    second.failures = vec![failed("y.rb"), failed("z.rb")];
    first.sort();
    second.sort();
    assert_eq!(first, second);
    let order: Vec<&str> = first.skipped.iter().map(|s| s.path.as_str()).collect();
    assert_eq!(order, ["a.rb", "b.rb", "c.rb"]);
}

#[test]
fn a_missing_answer_and_a_wrong_type_are_errors() {
    let mut query = Query::new("state".to_string());
    query.ask("urgent".to_string(), Question::Noul(Noul::new("urgent?".to_string()))).unwrap();
    let options = vec![("billing".to_string(), "b".to_string()), ("tech".to_string(), "t".to_string())];
    query.ask("team".to_string(), Question::Choice(Choice::new("which team?".to_string(), options).unwrap())).unwrap();
    let asked = |id: &str| query.question(id).map(|q| q.kind_name());
    assert_eq!(
        lintus::jev::error::missing_answer(asked("urgent"), "urgent", "noul").message(),
        "urgent has not been answered"
    );
    assert_eq!(
        lintus::jev::error::missing_answer(asked("never_asked"), "never_asked", "noul").message(),
        "never_asked has not been answered"
    );
    assert_eq!(
        lintus::jev::error::missing_answer(asked("team"), "team", "noul").message(),
        "team was asked as a choice question, not a noul one"
    );
}

#[test]
fn sorting_is_stable_and_a_second_sort_changes_nothing() {
    let skipped = |path: &str, reason: &str| Skipped { path: path.into(), reason: reason.into() };
    let mut report: Report<f64> = Report::new();
    report.skipped = vec![skipped("b.rb", "first"), skipped("a.rb", "x"), skipped("b.rb", "second")];
    report.sort();
    let order: Vec<(&str, &str)> = report.skipped.iter().map(|s| (s.path.as_str(), s.reason.as_str())).collect();
    assert_eq!(order, [("a.rb", "x"), ("b.rb", "first"), ("b.rb", "second")]);
    let once = report.clone();
    report.sort();
    assert_eq!(report, once);
}

#[test]
fn escaped_messages_hold_no_line_breaks() {
    let report = Report {
        checked: vec![],
        offenses: vec![Offense { path: "a:b,c.rb".into(), rule: "r".into(), message: "50%\r\nsure".into(), noul: "1.0".into() }],
        skipped: vec![],
        failures: vec![],
    };
    let out = github(&report);
    let first = out.lines().next().unwrap();
    assert_eq!(first, "::error file=a%3Ab%2Cc.rb,title=lintus%3A r::50%25%0D%0Asure");
    assert_eq!(first.replace("%0A", "\n").replace("%0D", "\r").replace("%25", "%").split("::").last().unwrap(), "50%\r\nsure");
}

#[test]
fn a_relative_path_leads_back_to_the_path() {
    for (path, base) in [("/root/app/x.rb", "/root"), ("/root", "/root"), ("/other/x.rb", "/root/a/b"), ("/", "/root/")] {
        let r = relative(path, base).unwrap();
        assert_eq!(normalize(&lintus::paths::join_path(base, &r)), normalize(path), "{path} from {base}");
    }
    assert_eq!(relative("/root", "/root").as_deref(), Some("."));
    assert!(relative("/rooted/x.rb", "/root").unwrap().starts_with("../"));
    assert_eq!(relative("/root", "/root/app").as_deref(), Some(".."));
    assert_eq!(relative("/root/..x/y.rb", "/root").as_deref(), Some("..x/y.rb"));
}
