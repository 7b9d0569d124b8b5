use lintus::cli::{selection, Selection};
use lintus::credentials::{config_dir, credentials_file, needs_saved, saved_key};
use lintus::error::Error;
use lintus::files::{not_a_repository, sort_unique, walked, FileFinder, Listing};
use lintus::paths::{join_path, normalize};
use lintus::git::{
    base_for, changed_args, failure, files_args, is_repository_answer, merge_base_args, nul_separated, show_args,
    spawn_failure, staged_files_args, untracked_args, Git,
};

fn strings(v: &[&str]) -> Vec<String> {
    v.iter().map(|s| s.to_string()).collect()
}

#[test]
fn a_z_listing_splits_on_nul_and_drops_empty_fields() {
    assert_eq!(nul_separated(b"lib/a.rb\0lib/b c.rb\0\0x\0"), strings(&["lib/a.rb", "lib/b c.rb", "x"]));
    assert_eq!(nul_separated(b"no terminator"), strings(&["no terminator"]));
    assert_eq!(nul_separated(b""), Vec::<String>::new());
    assert_eq!(nul_separated(b"\0\0"), Vec::<String>::new());
}

#[test]
fn invalid_utf8_in_a_listing_is_replaced() {
    assert_eq!(nul_separated(&[b'a', 0xff, b'b', 0, 0xc3, 0xa9]), strings(&["a\u{fffd}b", "é"]));
}

#[test]
fn a_repository_is_one_where_git_says_true() {
    assert!(is_repository_answer(&Ok(b"true\n".to_vec())));
    assert!(!is_repository_answer(&Ok(b"false\n".to_vec())));
    assert!(!is_repository_answer(&Ok(b" true".to_vec())));
    assert!(!is_repository_answer(&Err(Error::new("git rev-parse failed".to_string()))));
}

#[test]
fn the_diff_base_falls_back_to_the_reference() {
    assert_eq!(base_for(&Ok(b"0123abc\n".to_vec()), "main"), "0123abc");
    assert_eq!(base_for(&Err(Error::new("no merge base".to_string())), "main"), "main");
}

#[test]
fn git_commands_are_spelled_out() {
    assert_eq!(
        files_args(&strings(&["lib"])),
        strings(&["ls-files", "-z", "--cached", "--others", "--exclude-standard", "--", "lib"])
    );
    assert_eq!(staged_files_args(), strings(&["diff", "-z", "--cached", "--name-only", "--diff-filter=ACMR"]));
    assert_eq!(merge_base_args("main"), strings(&["merge-base", "main", "HEAD"]));
    assert_eq!(changed_args("abc"), strings(&["diff", "-z", "--name-only", "--diff-filter=ACMR", "abc"]));
    assert_eq!(untracked_args(), strings(&["ls-files", "-z", "--others", "--exclude-standard"]));
    assert_eq!(show_args("lib/a.rb"), strings(&["show", ":lib/a.rb"]));
}

#[test]
fn a_failed_git_command_names_itself_and_what_git_said() {
    let error = failure(&strings(&["diff", "-z", "no-such-ref"]), b"\n  fatal: bad revision 'no-such-ref'\n\n");
    assert_eq!(error.message(), "git diff -z no-such-ref failed: fatal: bad revision 'no-such-ref'");
    assert_eq!(spawn_failure("No such file or directory").message(), "could not run git: No such file or directory");
}

#[test]
fn git_runs_at_the_root() {
    assert_eq!(Git::new("/project".to_string()).root(), "/project");
}

#[test]
fn a_listing_depends_on_what_the_path_is() {
    let finder = FileFinder::new("/project".to_string());
    assert_eq!(finder.root(), "/project");
    assert!(matches!(finder.listing("/project/lib/a.rb", false, true), Ok(Listing::File(p)) if p == "lib/a.rb"));
    assert!(matches!(finder.listing("/project/lib", true, true), Ok(Listing::Git(p)) if p == "lib"));
    assert!(matches!(finder.listing("/project", true, false), Ok(Listing::Walk(p)) if p == "."));
    let error = finder.listing("/elsewhere/x.rb", false, false).err().unwrap();
    assert_eq!(error.message(), "/elsewhere/x.rb is outside the config root /project");
}

#[test]
fn sources_keep_present_files_unless_read_from_the_index() {
    let unique = strings(&["a.rb", "b.rb", "c.rb"]);
    let kept = FileFinder::sources(unique.clone(), &vec![true, false, true], false);
    let paths: Vec<&str> = kept.iter().map(|f| f.path()).collect();
    assert_eq!(paths, ["a.rb", "c.rb"]);
    assert!(kept.iter().all(|f| !f.from_index()));
    let staged = FileFinder::sources(unique, &vec![false, false, false], true);
    assert_eq!(staged.len(), 3);
    assert!(staged.iter().all(|f| f.from_index()));
}

#[test]
fn the_credentials_file_is_under_the_config_directory() {
    let some = |s: &str| Some(s.to_string());
    assert_eq!(config_dir(some("/xdg"), None, some("/home/me"), false), some("/xdg"));
    assert_eq!(config_dir(None, None, some("/home/me"), false), some("/home/me/.config"));
    assert_eq!(config_dir(None, some("C:\\AppData"), some("/home/me"), true), some("C:\\AppData"));
    assert_eq!(config_dir(None, None, None, false), None);
    assert_eq!(credentials_file("/home/me/.config"), "/home/me/.config/lintus/credentials.json");
}

#[test]
fn a_saved_key_is_read_from_its_json() {
    assert_eq!(saved_key("/c.json", "{\n  \"jev_api_key\": \"jev-123\"\n}\n").unwrap(), "jev-123");
    let missing = saved_key("/c.json", "{\"other\": 1}").unwrap_err();
    assert_eq!(
        missing.message(),
        "could not read the saved API key in /c.json: no `jev_api_key` in it. Run `lintus auth login` to save it again"
    );
    let empty = saved_key("/c.json", "{\"jev_api_key\": \"\"}").unwrap_err();
    assert_eq!(empty.message(), missing.message());
    let number = saved_key("/c.json", "{\"jev_api_key\": 5}").unwrap_err();
    assert_eq!(number.message(), missing.message());
    let broken = saved_key("/c.json", "not json").unwrap_err();
    assert!(broken.message().starts_with("could not read the saved API key in /c.json: expected"), "{}", broken.message());
}

#[test]
fn the_saved_key_is_read_only_without_flag_or_environment() {
    let some = |s: &str| Some(s.to_string());
    assert!(needs_saved(&None, &None));
    assert!(needs_saved(&None, &some("")));
    assert!(!needs_saved(&None, &some("env-key")));
    assert!(!needs_saved(&some("flag"), &None));
}

#[test]
fn diff_and_staged_need_a_git_repository() {
    let finder = FileFinder::new("/project".to_string());
    for (staged, diff) in [(true, None), (false, Some("HEAD".to_string()))] {
        assert!(matches!(selection(staged, diff, false), Selection::Staged | Selection::Diff(_)));
        let answer = Err(failure(&strings(&["rev-parse", "--is-inside-work-tree"]), b"fatal: not a git repository"));
        assert!(!is_repository_answer(&answer));
        assert_eq!(
            not_a_repository(finder.root()).message(),
            "/project is not a git repository: --diff and --staged need git"
        );
    }
}

#[test]
fn explicit_paths_are_resolved_from_the_current_directory() {
    let finder = FileFinder::new("/project".to_string());
    let dirs = ["/project/app/jobs"];
    let files = ["/project/app/jobs/a.rb", "/project/app/b.rb", "/project/lib/c.rb"];
    let walk = |dir: &str| -> Vec<String> {
        files.iter().filter_map(|f| f.strip_prefix(&format!("{dir}/"))).map(|s| s.to_string()).collect()
    };
    let mut found = Vec::new();
    for path in ["jobs", "../lib/c.rb", "missing.rb", "jobs/a.rb"] {
        let absolute = normalize(&join_path("/project/app", path));
        let is_dir = dirs.contains(&absolute.as_str());
        match finder.listing(&absolute, is_dir, false).unwrap() {
            Listing::File(relative) => found.push(relative),
            Listing::Walk(relative) => found.extend(walked(walk(&absolute), &relative)),
            Listing::Git(_) => unreachable!("outside git"),
        }
    }
    let unique = sort_unique(found);
    let present: Vec<bool> = unique.iter().map(|p| files.contains(&format!("/project/{p}").as_str())).collect();
    let sources = FileFinder::sources(unique, &present, false);
    let paths: Vec<&str> = sources.iter().map(|f| f.path()).collect();
    assert_eq!(paths, ["app/jobs/a.rb", "lib/c.rb"]);
}

/// The files of a `-z` listing a run keeps, given which exist in the working tree.
fn kept(listing: &[u8], existing: &[&str], from_index: bool) -> Vec<String> {
    let unique = sort_unique(nul_separated(listing));
    let present: Vec<bool> = unique.iter().map(|p| existing.contains(&p.as_str())).collect();
    FileFinder::sources(unique, &present, from_index).iter().map(|f| f.path().to_string()).collect()
}

#[test]
fn deleted_tracked_files_are_skipped() {
    // `git ls-files` still lists lib/a.rb, deleted from the working tree;
    // `git diff --diff-filter=ACMR` leaves deletions out.
    let existing = [".lintus.yml", "lib/b.rb"];
    assert_eq!(kept(b".lintus.yml\0lib/a.rb\0lib/b.rb\0", &existing, false), strings(&[".lintus.yml", "lib/b.rb"]));
    assert_eq!(kept(b"", &existing, false), Vec::<String>::new());
}

#[test]
fn staged_lints_a_file_deleted_from_the_working_tree_but_not_a_deleted_one() {
    // `git diff --cached --name-only --diff-filter=ACMR` lists the added
    // file, gone from the working tree, and not the removed one.
    assert_eq!(kept(b"lib/new.rb\0", &[], true), strings(&["lib/new.rb"]));
}

#[test]
fn diff_against_an_unknown_ref_fails() {
    // `git merge-base` finds no base, so the diff is taken against the
    // reference itself, which git then refuses.
    let base = base_for(&Err(failure(&merge_base_args("no-such-ref"), b"fatal: Not a valid object name")), "no-such-ref");
    assert_eq!(base, "no-such-ref");
    let error = failure(&changed_args(&base), b"fatal: bad revision 'no-such-ref'\n");
    let printed = format!("lintus: {}", error.message());
    assert!(printed.starts_with("lintus: git diff"), "{printed}");
    assert!(printed.contains("failed"), "{printed}");
}
