use lintus::glob::{matches_any, Glob};

fn matches(pattern: &str, path: &str) -> bool {
    Glob::new(pattern).matches(path)
}

#[test]
fn double_star_spans_directories() {
    assert!(matches("app/**/*.rb", "app/jobs/foo_job.rb"));
    assert!(matches("app/**/*.rb", "app/foo.rb"));
    assert!(!matches("app/**/*.rb", "lib/foo.rb"));
}

#[test]
fn bare_directory_matches_everything_beneath_it() {
    assert!(matches("vendor", "vendor/gem/lib/x.rb"));
    assert!(matches("vendor/", "vendor/x.rb"));
    assert!(matches("./vendor", "vendor/x.rb"));
    assert!(!matches("vendor", "vendored/x.rb"));
}

#[test]
fn trailing_double_star_matches_nested_files() {
    assert!(matches("vendor/**", "vendor/a/b/c.rb"));
    assert!(matches("vendor/**", "vendor/c.rb"));
}

#[test]
fn exact_file() {
    assert!(matches("Gemfile", "Gemfile"));
    assert!(!matches("Gemfile", "sub/Gemfile"));
}

#[test]
fn braces_and_dotfiles() {
    assert!(matches("**/*.{yml,yaml}", "config/a.yaml"));
    assert!(matches("**/*.yml", ".github/workflows/ci.yml"));
    assert!(!matches("{a,b", "a"));
}

#[test]
fn single_star_does_not_cross_directories() {
    assert!(!matches("app/*.rb", "app/jobs/foo.rb"));
}

#[test]
fn character_classes_ranges_and_negation() {
    assert!(matches("lib/[a-c]?.rb", "lib/ab.rb"));
    assert!(!matches("lib/[a-c]?.rb", "lib/db.rb"));
    assert!(matches("lib/[!a-c]x.rb", "lib/dx.rb"));
    assert!(!matches("lib/[!a-c]x.rb", "lib/ax.rb"));
    assert!(matches("lib/[^a]x.rb", "lib/bx.rb"));
    assert!(!matches("lib/[a-c", "lib/a"));
}

#[test]
fn escapes_and_question_marks() {
    assert!(matches("a\\*b", "a*b"));
    assert!(!matches("a\\*b", "axb"));
    assert!(matches("?.rb", "a.rb"));
    assert!(!matches("?.rb", "/.rb"));
    assert!(matches("*", ".hidden"));
}

#[test]
fn nested_braces_expand_every_alternative() {
    assert!(matches("{a,{b,c}}.rb", "c.rb"));
    assert!(matches("x{,y}.rb", "x.rb"));
    assert!(matches("x{,y}.rb", "xy.rb"));
    assert!(!matches("x{,y}.rb", "xz.rb"));
}

#[test]
fn double_star_in_the_middle_and_at_the_start() {
    assert!(matches("**/x.rb", "x.rb"));
    assert!(matches("**/x.rb", "a/b/c/x.rb"));
    assert!(matches("a/**/b/*.rb", "a/b/c.rb"));
    assert!(matches("a/**/b/*.rb", "a/x/y/b/c.rb"));
    assert!(!matches("a/**/b/*.rb", "a/x/y/c.rb"));
}

#[test]
fn matches_any_checks_every_glob() {
    let globs = vec![Glob::new("*.md"), Glob::new("lib")];
    assert!(matches_any(&globs, "README.md"));
    assert!(matches_any(&globs, "lib/a/b.rb"));
    assert!(!matches_any(&globs, "app/x.rb"));
    assert!(!matches_any(&[], "anything"));
}

#[test]
fn a_bare_name_matches_itself_and_beneath_only() {
    for (pattern, path, expected) in [
        ("vendor", "vendor", true),
        ("vendor", "vendor/a/.b.rb", true),
        ("./vendor/", "vendor/x.rb", true),
        ("vendor", "vendored/x.rb", false),
        ("vendor", "vendo", false),
        ("Gemfile", "sub/Gemfile", false),
        ("app/models", "app/models/user.rb", true),
        ("app/models", "app/models_old/user.rb", false),
    ] {
        assert_eq!(matches(pattern, path), expected, "{pattern} against {path}");
    }
}
