use kusara::hook::{
    append_note, cannot_check_message, default_journal_dir, hook_journal_path, journal_files,
    postedit_entry, sanitize_session,
};
use kusara::paths::{has_parent_dir, repo_relative_path};
use kusara::stale::{
    git_failure_message, module_key, newest_module, parse_git_log, parse_i64, stale_report,
    GitLogError, GitStamp, IntError, StaleFinding,
};
use kusara::text::{split_ascii_words, trim_ws};

fn stamp(time: i64) -> GitStamp {
    GitStamp {
        time,
        hash: format!("h{time}"),
        date: format!("d{time}"),
    }
}

#[test]
fn parse_i64_accepts_what_str_parse_accepts() {
    assert_eq!(parse_i64("1700000000"), Ok(1700000000));
    assert_eq!(parse_i64("+42"), Ok(42));
    assert_eq!(parse_i64("-42"), Ok(-42));
    assert_eq!(parse_i64("007"), Ok(7));
    assert_eq!(parse_i64("-9223372036854775808"), Ok(i64::MIN));
    assert_eq!(parse_i64("9223372036854775807"), Ok(i64::MAX));
}

#[test]
fn parse_i64_errors_match_str_parse() {
    let cases = ["", "+", "-", "1x", "x1", "9223372036854775808", "-9223372036854775809",
        "99999999999999999999x", " 1"];
    for c in cases {
        let ours = parse_i64(c).map_err(|e| e.message());
        let std = c.parse::<i64>().map_err(|e| e.to_string());
        assert_eq!(ours, std, "input {c:?}");
    }
    assert_eq!(parse_i64(""), Err(IntError::Empty));
    assert_eq!(parse_i64("+"), Err(IntError::InvalidDigit));
    assert_eq!(parse_i64("9223372036854775808"), Err(IntError::PosOverflow));
    assert_eq!(parse_i64("-9223372036854775809"), Err(IntError::NegOverflow));
}

#[test]
fn git_log_line_is_read() {
    let s = parse_git_log("1700000000 abc1234 2023-11-14\n").unwrap().unwrap();
    assert_eq!(s.time, 1700000000);
    assert_eq!(s.hash, "abc1234");
    assert_eq!(s.date, "2023-11-14");
    let s = parse_git_log("  5\tdeadbee 2020-01-01 extra\r\n").unwrap().unwrap();
    assert_eq!((s.time, s.hash.as_str(), s.date.as_str()), (5, "deadbee", "2020-01-01"));
}

#[test]
fn git_log_without_commit_is_none() {
    assert!(parse_git_log("").unwrap().is_none());
    assert!(parse_git_log(" \n\t\n").unwrap().is_none());
}

#[test]
fn git_log_errors() {
    match parse_git_log("  12 abc \n") {
        Err(e @ GitLogError::Unexpected(_)) => {
            assert_eq!(e.message("src/a.rs"), "unexpected git log output for `src/a.rs`: 12 abc")
        }
        other => panic!("unexpected {other:?}"),
    }
    match parse_git_log("soon abc 2020-01-01") {
        Err(e @ GitLogError::BadTime(_, _)) => assert_eq!(
            e.message("src/a.rs"),
            "parse commit time `soon`: invalid digit found in string"
        ),
        other => panic!("unexpected {other:?}"),
    }
    assert_eq!(
        git_failure_message("src/a.rs", "fatal: not a git repository\n"),
        "git log failed for `src/a.rs`: fatal: not a git repository"
    );
}

#[test]
fn newest_module_is_first_of_the_latest() {
    let stamps = vec![Some(stamp(5)), None, Some(stamp(9)), Some(stamp(9)), Some(stamp(3))];
    assert_eq!(newest_module(4, &stamps), Some(2));
    assert_eq!(newest_module(9, &stamps), None);
    assert_eq!(newest_module(0, &vec![None, Some(stamp(1))]), Some(1));
    assert_eq!(newest_module(0, &Vec::new()), None);
}

#[test]
fn module_key_strips_trailing_slashes() {
    assert_eq!(module_key("src/auth/"), "src/auth");
    assert_eq!(module_key("src\\auth\\\\"), "src/auth//");
    assert_eq!(module_key("src//"), "src");
}

#[test]
fn stale_report_lists_findings() {
    let (out, stale) = stale_report(&Vec::new(), 3);
    assert_eq!(out, "OK (3 docs with modules checked)\n");
    assert!(!stale);
    let f = StaleFinding {
        rel_path: "docs/a.md".to_string(),
        id: "spec:a".to_string(),
        doc_stamp: stamp(1),
        module: "src/a/".to_string(),
        module_stamp: stamp(2),
    };
    let (out, stale) = stale_report(&vec![f], 1);
    assert!(stale);
    assert_eq!(
        out,
        "Stale docs (code in `modules:` changed after the doc's last commit):\n  docs/a.md (spec:a)\n    doc last commit:    d1 h1\n    newer module path:  src/a/ \u{2014} d2 h2\n\n1 stale doc(s)\n"
    );
}

#[test]
fn trim_and_words() {
    assert_eq!(trim_ws("\u{a0} a b \u{3000}\n"), "a b");
    assert_eq!(trim_ws("   "), "");
    assert_eq!(split_ascii_words("  a\tbb \n c "), vec!["a", "bb", "c"]);
    assert!(split_ascii_words(" \t").is_empty());
}

#[test]
fn journal_files_are_trimmed_ordered_and_unique() {
    assert_eq!(journal_files("b\n a \n\nb\r\n"), vec!["a", "b"]);
    assert!(journal_files("\n \n").is_empty());
    assert_eq!(journal_files("only"), vec!["only"]);
}

#[test]
fn postedit_records_repo_relative_paths() {
    assert_eq!(postedit_entry("/repo", "src/x.rs"), Some("src/x.rs\n".to_string()));
    assert_eq!(postedit_entry("/repo", "/repo/src/x.rs"), Some("src/x.rs\n".to_string()));
    assert_eq!(postedit_entry("/repo", "/other/x.rs"), None);
    assert_eq!(postedit_entry("/repo", "/repo/../etc/passwd"), None);
    assert_eq!(postedit_entry("/repo", "src/../x.rs"), None);
}

#[test]
fn paths_of_arguments() {
    assert!(has_parent_dir("a/../b"));
    assert!(!has_parent_dir("a/..b/c"));
    assert_eq!(repo_relative_path("/repo", "src/a.rs"), "src/a.rs");
    assert_eq!(repo_relative_path("/repo", "/repo/src/a.rs"), "src/a.rs");
    assert_eq!(repo_relative_path("/repo", "/elsewhere/a.rs"), "/elsewhere/a.rs");
}

#[test]
fn journal_locations() {
    assert_eq!(default_journal_dir(true, Some("/xdg"), Some("/home/u"), "/tmp"), "/xdg/kusara/hook");
    assert_eq!(default_journal_dir(true, Some(""), Some("/home/u"), "/tmp"), "/home/u/.cache/kusara/hook");
    assert_eq!(default_journal_dir(true, None, None, "/tmp"), "/tmp/kusara-hook");
    assert_eq!(default_journal_dir(false, Some("/xdg"), Some("/home/u"), "/tmp"), "/tmp/kusara-hook");
    let p = hook_journal_path("/j", "/repo", "ab c/1");
    assert!(p.starts_with("/j/"));
    assert!(p.ends_with("-ab_c_1.journal"));
    assert_eq!(p.len(), "/j/".len() + 16 + "-ab_c_1.journal".len());
    assert_ne!(hook_journal_path("/j", "/repo", "s"), hook_journal_path("/j", "/other", "s"));
    assert_eq!(sanitize_session("a-B9.z"), "a-B9_z");
}

#[test]
fn notes_and_load_failures() {
    assert_eq!(append_note("body", Some("see rules")), "body\n\nsee rules");
    assert_eq!(append_note("body", None), "body");
    assert_eq!(
        cannot_check_message("no manifest"),
        "kusara: cannot check this turn's edits: no manifest"
    );
}
