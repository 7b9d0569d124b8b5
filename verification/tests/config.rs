use lintus::cli::list_output;
use lintus::config::{config_candidates, config_not_found, no_config_found, Config};
use lintus::error::Error;
use lintus::files::{sort_unique, SourceFile};
use lintus::paths::{join_path, normalize, parent};
use lintus::runner::plan;
use lintus::yaml::{load, FloatFact, FloatFacts, Value};

/// The config most scenarios use: one rule scoped to jobs, one negative rule for every Ruby file.
const CONFIG: &str = r#"paths: ["**/*.rb"]
rules:
  no_sleep:
    description: Jobs must not sleep.
    question: Does this file call sleep?
    paths: ["app/jobs/**/*.rb"]
  documented:
    question: Is every class documented?
    offense_when: false
"#;

fn facts(data: &Value) -> FloatFacts {
    let facts = data
        .float_literals()
        .into_iter()
        .map(|text| {
            let x: f64 = text.parse().unwrap();
            let id = if x.is_nan() { None } else { Some((x + 0.0).to_bits()) };
            FloatFact { display: format!("{x:?}"), in_unit: (0.0..=1.0).contains(&x), id, text }
        })
        .collect();
    FloatFacts { facts }
}

fn config_at(yaml: &str, root: &str) -> Result<Config, Error> {
    let floats = facts(&load(yaml, &FloatFacts { facts: vec![] }).unwrap());
    let data = load(yaml, &floats).unwrap();
    Config::from_yaml(data, root.to_string(), &floats)
}

fn config(yaml: &str) -> Result<Config, Error> {
    config_at(yaml, "/project")
}

/// What `--list` prints for these root-relative files.
fn listed(config: &Config, files: &[&str]) -> String {
    let paths = sort_unique(files.iter().map(|f| f.to_string()).collect());
    let sources = paths.iter().map(|p| SourceFile::in_working_tree(p)).collect();
    list_output(&plan(config, sources))
}

#[test]
fn invalid_configs_are_rejected_with_a_precise_message() {
    let cases: &[(&str, &str)] = &[
        ("", "`rules` must be a map of rule id => attributes"),
        ("- a\n", "config must be a map, got Array"),
        ("just text\n", "config must be a map, got String"),
        ("rules: []\n", "`rules` must be a map of rule id => attributes"),
        ("rules: {}\n", "`rules` is empty: nothing to lint"),
        (
            "rule: {}\nrules:\n  r:\n    question: q\n",
            "config: unknown key(s) rule (expected rules, paths, exclude, max_file_size)",
        ),
        ("max_file_size: big\nrules:\n  r:\n    question: q\n", "`max_file_size` must be a positive integer of bytes"),
        ("max_file_size: 0\nrules:\n  r:\n    question: q\n", "`max_file_size` must be a positive integer of bytes"),
        ("max_file_size: 1.5\nrules:\n  r:\n    question: q\n", "`max_file_size` must be a positive integer of bytes"),
        (
            "rules:\n  No-Sleep:\n    question: q\n",
            "invalid rule id \"No-Sleep\": use snake_case (letters, digits, underscores)",
        ),
        (
            "rules:\n  1abc:\n    question: q\n",
            "invalid rule id \"1abc\": use snake_case (letters, digits, underscores)",
        ),
        ("rules:\n  r:\n    description: d\n", "rule r: `question` is required"),
        ("rules:\n  r:\n    question: '  '\n", "rule r: `question` is required"),
        ("rules:\n  r: just a string\n", "rule r: expected a map of attributes, got \"just a string\""),
        ("rules:\n  r:\n", "rule r: expected a map of attributes, got nil"),
        (
            "rules:\n  r:\n    question: q\n    severity: error\n",
            "rule r: unknown key(s) severity (expected question, description, criteria, threshold, paths, exclude, offense_when)",
        ),
        ("rules:\n  r:\n    question: q\n    threshold: 2\n", "rule r: `threshold` must be a number between 0 and 1"),
        (
            "rules:\n  r:\n    question: q\n    threshold: high\n",
            "rule r: `threshold` must be a number between 0 and 1",
        ),
        (
            "rules:\n  r:\n    question: q\n    criteria: x\n",
            "rule r: `criteria` must be a map with `true` and `false` keys",
        ),
        ("rules:\n  r:\n    question: q\n    offense_when: maybe\n", "rule r: `offense_when` must be true or false"),
    ];

    for (yaml, message) in cases {
        let error = config(yaml).unwrap_err();
        assert_eq!(error.message(), *message, "{yaml:?}");
        assert_eq!(format!("lintus: {}\n", error.message()), format!("lintus: {message}\n"), "{yaml:?}");
    }
}

#[test]
fn optional_rule_attributes_have_defaults_and_accept_valid_values() {
    let config = config(
        r#"
paths: ["*.rb"]
max_file_size: 5000
rules:
  bare:
    question: "  Is this padded?  "
  full:
    description: Full rule.
    question: Is this full?
    criteria:
      "true": It is.
      "false": It is not.
    threshold: 1
    paths: "*.rb"
    exclude: ["b.rb"]
    offense_when: false
"#,
    )
    .unwrap();

    assert_eq!(config.max_file_size, 5000);
    assert_eq!(config.rules[0].question, "Is this padded?");
    assert_eq!(config.rules[0].description, "Is this padded?");
    assert!(config.rules[0].threshold.is_none());
    assert!(config.rules[0].offense_when);
    assert_eq!(config.rules[1].threshold.as_ref().unwrap().text, "1");
    assert!(!config.rules[1].offense_when);
    assert_eq!(listed(&config, &["a.rb", ".lintus.yml"]), "a.rb: bare, full\n1 file(s) would be checked\n");
}

#[test]
fn yaml_anchors_and_aliases_are_supported() {
    let config = config(
        r#"
rules:
  one:
    question: q1
    paths: &ruby ["lib/**/*.rb"]
  two:
    question: q2
    paths: *ruby
"#,
    )
    .unwrap();

    assert_eq!(
        listed(&config, &["lib/a.rb", "app/b.rb", ".lintus.yml"]),
        "lib/a.rb: one, two\n1 file(s) would be checked\n"
    );
}

#[test]
fn globs_follow_the_documented_rules() {
    let config = config(
        r#"
exclude: ["tmp"]
rules:
  double_star:
    question: q
    paths: ["app/**/*.rb"]
  single_star:
    question: q
    paths: ["app/*.rb"]
  bare_dir:
    question: q
    paths: ["./vendor/"]
  trailing_double_star:
    question: q
    paths: ["config/**"]
  braces:
    question: q
    paths: ["**/*.{yml,yaml}"]
  exact:
    question: q
    paths: ["Gemfile"]
  classes:
    question: q
    paths: ["lib/[a-c]?.rb", "lib/[!a-c]x.rb"]
  excluded:
    question: q
    paths: ["**/*"]
    exclude: ["**/*_test.rb", "vendor", "config/**", "*.{yml,yaml}", ".*/**", "lib", "app", "Gemfile"]
"#,
    )
    .unwrap();
    let files = [
        ".lintus.yml",
        "app/top.rb",
        "app/jobs/nested.rb",
        "vendor/gem/lib/v.rb",
        "vendored/x.rb",
        "config/a.yaml",
        "config/deep/b.yml",
        ".github/workflows/ci.yml",
        "Gemfile",
        "sub/Gemfile",
        "lib/ab.rb",
        "lib/dx.rb",
        "lib/ax.rb",
        "unit_test.rb",
        "tmp/cache.rb",
        "other.txt",
    ];

    assert_eq!(
        listed(&config, &files),
        "\
.github/workflows/ci.yml: braces
.lintus.yml: braces
Gemfile: exact
app/jobs/nested.rb: double_star
app/top.rb: double_star, single_star
config/a.yaml: trailing_double_star, braces
config/deep/b.yml: trailing_double_star, braces
lib/ab.rb: classes
lib/ax.rb: classes
lib/dx.rb: classes
other.txt: excluded
sub/Gemfile: excluded
vendor/gem/lib/v.rb: bare_dir
vendored/x.rb: excluded
14 file(s) would be checked
"
    );
}

#[test]
fn list_shows_files_and_rules_without_an_api_key() {
    let config = config(CONFIG).unwrap();
    let out = listed(&config, &[".lintus.yml", "app/jobs/a_job.rb", "lib/b.rb", "README.md"]);
    assert_eq!(out, "app/jobs/a_job.rb: no_sleep, documented\nlib/b.rb: documented\n2 file(s) would be checked\n");
}

#[test]
fn the_config_is_found_by_walking_up_and_its_directory_is_the_root() {
    let candidates = config_candidates("/project/lib/deep");
    assert_eq!(
        &candidates[..5],
        [
            "/project/lib/deep/.lintus.yml",
            "/project/lib/deep/lintus.yml",
            "/project/lib/deep/.lintus.yaml",
            "/project/lib/deep/lintus.yaml",
            "/project/lib/.lintus.yml",
        ]
    );
    assert_eq!(candidates.len(), 16);
    assert_eq!(candidates[8], "/project/.lintus.yml");
    assert_eq!(candidates[12], "/.lintus.yml");

    let found = "/project/.lintus.yml";
    let config = config_at(CONFIG, &parent(found)).unwrap();
    assert_eq!(config.root, "/project");
    let out = listed(&config, &[".lintus.yml", "lib/deep/b.rb"]);
    assert_eq!(out, "lib/deep/b.rb: documented\n1 file(s) would be checked\n");
}

#[test]
fn an_explicit_config_path_makes_its_directory_the_root() {
    let path = normalize(&join_path("/project", "elsewhere/custom.yml"));
    assert_eq!(path, "/project/elsewhere/custom.yml");
    let config = config_at(CONFIG, &parent(&path)).unwrap();
    assert_eq!(config.root, "/project/elsewhere");
    let out = listed(&config, &["custom.yml", "lib/b.rb"]);
    assert_eq!(out, "lib/b.rb: documented\n1 file(s) would be checked\n");
}

#[test]
fn a_missing_config_is_reported() {
    let error = no_config_found("/project");
    assert!(
        format!("lintus: {}\n", error.message())
            .starts_with("lintus: No config file found: looked for .lintus.yml, lintus.yml, .lintus.yaml, lintus.yaml in "),
        "{}",
        error.message()
    );
    assert_eq!(error.message(), "No config file found: looked for .lintus.yml, lintus.yml, .lintus.yaml, lintus.yaml in /project and its parents");

    let error = config_not_found("nope.yml");
    assert_eq!(format!("lintus: {}\n", error.message()), "lintus: Config file not found: nope.yml\n");
}

#[test]
fn every_config_file_name_is_looked_for_in_order() {
    let candidates = config_candidates("/");
    assert_eq!(candidates, ["/.lintus.yml", "/lintus.yml", "/.lintus.yaml", "/lintus.yaml"]);
    let candidates = config_candidates("a");
    assert_eq!(candidates, ["a/.lintus.yml", "a/lintus.yml", "a/.lintus.yaml", "a/lintus.yaml", ".lintus.yml", "lintus.yml", ".lintus.yaml", "lintus.yaml"]);
}

#[test]
fn rules_for_applies_global_exclude_then_rule_globs() {
    let config = config(
        "paths: [\"**/*.rb\"]\nexclude: [\"vendor/**\"]\nrules:\n  no_sleep:\n    description: Jobs must not sleep.\n    question: Does this file call sleep?\n    paths: [\"app/jobs/**/*.rb\"]\n  documented:\n    question: Is every class documented?\n    offense_when: false\n    threshold: 0.7\n",
    )
    .unwrap();
    let ids = |path: &str| config.rules_for(path).iter().map(|rule| rule.id.clone()).collect::<Vec<_>>();

    assert_eq!(ids("app/jobs/a_job.rb"), ["no_sleep", "documented"]);
    assert_eq!(ids("lib/a.rb"), ["documented"]);
    assert!(ids("vendor/gem/a.rb").is_empty());
    assert!(ids("README.md").is_empty());
    assert_eq!(config.rules[1].threshold.as_ref().unwrap().text, "0.7");
}

#[test]
fn rule_paths_override_default_paths_and_exclude_adds_to_it() {
    let config = config(
        "paths: ['**/*']\nexclude: [tmp]\nrules:\n  r:\n    question: q\n    paths: app/**/*.rb\n    exclude: ['**/*_test.rb']\n",
    )
    .unwrap();
    let rule = &config.rules[0];

    assert!(rule.applies_to("app/x.rb"));
    assert!(!rule.applies_to("lib/x.rb"));
    assert!(!rule.applies_to("app/x_test.rb"));
    assert!(!rule.applies_to("tmp/app/x.rb"));
}

#[test]
fn an_explicitly_empty_paths_applies_everywhere() {
    let config = config("paths: ['lib/**']\nrules:\n  r:\n    question: q\n    paths:\n").unwrap();
    assert!(config.rules[0].applies_to("app/x.rb"));
}

#[test]
fn yaml_1_1_values_read_like_ruby() {
    let config = config("max_file_size: 100_000\nrules:\n  r:\n    question: q\n    offense_when: no\n").unwrap();
    assert_eq!(config.max_file_size, 100_000);
    assert!(!config.rules[0].offense_when);
}

#[test]
fn to_noul_forwards_criteria_and_threshold() {
    let config =
        config("rules:\n  r:\n    question: q?\n    criteria:\n      true: t\n      'false': f\n    threshold: 0.8\n")
            .unwrap();
    let noul = config.rules[0].to_noul();

    assert_eq!(noul.instructions(), "q?");
    assert_eq!(
        noul.criteria().unwrap().iter().collect::<Vec<_>>(),
        [(&"true".to_string(), &"t".to_string()), (&"false".to_string(), &"f".to_string())]
    );
    assert_eq!(noul.threshold().text, "0.8");
}

#[test]
fn offense_follows_offense_when() {
    let config =
        config("rules:\n  positive:\n    question: q\n  negative:\n    question: q\n    offense_when: false\n").unwrap();
    let above_threshold = 0.9 > 0.5;

    assert!(config.rules[0].is_offense(above_threshold));
    assert!(!config.rules[1].is_offense(above_threshold));
}

#[test]
fn defaults() {
    let config = config("rules:\n  no_sleep:\n    question: Does this file call sleep?\n").unwrap();
    let rule = &config.rules[0];

    assert_eq!(config.max_file_size, 100_000);
    assert_eq!(rule.description, "Does this file call sleep?");
    assert!(rule.offense_when);
    assert!(rule.threshold.is_none());
    assert!(rule.criteria.is_none());
    assert!(rule.applies_to("anything/at/all.txt"));
}

#[test]
fn a_float_threshold_outside_the_unit_interval_is_refused() {
    let error = config("rules:\n  r:\n    question: q\n    threshold: 1.5\n").unwrap_err();
    assert_eq!(error.message(), "rule r: `threshold` must be a number between 0 and 1");
    let error = config("rules:\n  r:\n    question: q\n    threshold: -0.1\n").unwrap_err();
    assert_eq!(error.message(), "rule r: `threshold` must be a number between 0 and 1");
    let zero = config("rules:\n  r:\n    question: q\n    threshold: 0\n").unwrap();
    assert_eq!(zero.rules[0].threshold.as_ref().unwrap().text, "0");
}

#[test]
fn repeated_keys_collapse_to_the_last_value() {
    let collapsed = config("rules:\n  r:\n    question: first\n    question: second\n").unwrap();
    assert_eq!(collapsed.rules[0].question, "second");
    let error = config("rules:\n  r:\n    question: q\n    1: x\n    2: y\n").unwrap_err();
    assert_eq!(
        error.message(),
        "rule r: unknown key(s) 1, 2 (expected question, description, criteria, threshold, paths, exclude, offense_when)"
    );
}

#[test]
fn short_flags() {
    let config = config_at(CONFIG, "/project/conf").unwrap();
    assert_eq!(
        listed(&config, &["custom.yml", "lib/b.rb", "lib/c.rb"]),
        "lib/b.rb: documented\nlib/c.rb: documented\n2 file(s) would be checked\n"
    );
}

#[test]
fn a_rule_s_own_paths_replace_the_top_level_ones_even_when_null() {
    let config = config(
        "paths: ['lib/**']\nexclude: ['lib/vendor/**']\nrules:\n  everywhere:\n    question: q\n    paths:\n  \
         listed:\n    question: q\n  own:\n    question: q\n    paths: ['app/**']\n    exclude: ['app/tmp.rb']\n",
    )
    .unwrap();
    let ids = |path: &str| -> Vec<String> { config.rules_for(path).iter().map(|r| r.id.clone()).collect() };
    assert_eq!(ids("app/x.rb"), ["everywhere", "own"]);
    assert_eq!(ids("lib/a.rb"), ["everywhere", "listed"]);
    assert_eq!(ids("lib/vendor/b.rb"), Vec::<String>::new());
    assert_eq!(ids("app/tmp.rb"), ["everywhere"]);
}
