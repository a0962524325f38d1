use wtree::envir::{apply_args, decompose_arg, ApplyOutcome, Setting};
use wtree::strutil::{parse_i32, parse_u32};
use wtree::utils::Entry;
use wtree::wtree::{print_tree, Children, DirTree, Row};

fn file(name: &str) -> DirTree {
    DirTree {
        entry: Entry::new(
            format!("/r/{}", name),
            name.to_string(),
            String::new(),
            false,
            Some(0),
            true,
        ),
        children: Children::Listed(Vec::new()),
    }
}

fn dir(name: &str, children: Vec<DirTree>) -> DirTree {
    DirTree {
        entry: Entry::new(
            format!("/r/{}", name),
            name.to_string(),
            String::new(),
            true,
            Some(0),
            true,
        ),
        children: Children::Listed(children),
    }
}

fn names(rows: &[Row]) -> Vec<String> {
    rows.iter().map(|r| r.entry_name.clone()).collect()
}

#[test]
fn test_fn_decompose_arg() {
    let args = decompose_arg(&vec![String::from("-vga"), String::from("--inodes")]).unwrap();
    assert_eq!(
        args,
        vec![
            String::from("v"),
            String::from("g"),
            String::from("a"),
            String::from("inodes")
        ]
    )
}

#[test]
#[should_panic]
fn decompose_arg_with_incorrect_input() {
    let _args = decompose_arg(&vec![String::from("-Io")]).unwrap();
}

#[test]
fn apply_args_sets_flags() {
    let args = vec!["a".to_string(), "dirsfirst".to_string(), "r".to_string()];
    match apply_args(&args) {
        ApplyOutcome::Done(s) => {
            assert!(s.is_all);
            assert!(s.is_dir_first);
            assert!(s.is_sort_reverse);
            assert!(!s.is_dir_only);
        }
        _ => panic!("expected a finished configuration"),
    }
}

#[test]
fn apply_args_pattern_replaces_opposite() {
    let args = vec![
        "I".to_string(),
        "old".to_string(),
        "P".to_string(),
        "new".to_string(),
    ];
    match apply_args(&args) {
        ApplyOutcome::Done(s) => {
            assert!(s.pattern_p);
            assert!(!s.pattern_i);
            assert_eq!(s.pattern, "new");
        }
        _ => panic!("expected a finished configuration"),
    }
}

#[test]
fn apply_args_missing_parameter() {
    let args = vec!["P".to_string()];
    assert!(matches!(apply_args(&args), ApplyOutcome::MissingParam));
}

#[test]
fn apply_args_invalid_flag() {
    let args = vec!["n".to_string()];
    match apply_args(&args) {
        ApplyOutcome::Invalid(f) => assert_eq!(f, "n"),
        _ => panic!("expected an invalid flag"),
    }
}

#[test]
fn parse_numbers() {
    assert_eq!(parse_i32("42"), Some(42));
    assert_eq!(parse_i32("-3"), Some(-3));
    assert_eq!(parse_i32("+7"), Some(7));
    assert_eq!(parse_i32("2147483647"), Some(2147483647));
    assert_eq!(parse_i32("-2147483648"), Some(-2147483648));
    assert_eq!(parse_i32("2147483648"), None);
    assert_eq!(parse_i32(""), None);
    assert_eq!(parse_i32("4x"), None);
    assert_eq!(parse_u32("4294967295"), Some(4294967295));
    assert_eq!(parse_u32("4294967296"), None);
    assert_eq!(parse_u32("-1"), None);
}

#[test]
fn level_getter() {
    let s = Setting::default();
    assert_eq!(s.get_level(), -1);
    let mut s = Setting::default();
    s.is_level_limited = true;
    s.level = "3".to_string();
    assert_eq!(s.get_level(), 3);
}

#[test]
fn root_prefix_of_canonical_paths() {
    let mut s = Setting::default();
    s.root = "/a/b".to_string();
    assert_eq!(s.get_root_prefix(), "/a");
    s.root = "/a".to_string();
    assert_eq!(s.get_root_prefix(), "/");
    s.root = "/".to_string();
    assert_eq!(s.get_root_prefix(), "/");
}

#[test]
fn hidden_entries_dropped_without_show_all() {
    let root = dir("top", vec![file(".secret"), file("plain")]);
    let s = Setting::default();
    let (rows, _) = print_tree(&root, &s);
    assert_eq!(names(&rows[1..]), vec!["plain"]);
    for r in &rows {
        assert!(!r.entry_name.starts_with('.'));
    }
}

#[test]
fn hidden_entries_kept_with_show_all() {
    let root = dir("top", vec![file(".secret"), file("plain")]);
    let mut s = Setting::default();
    s.is_all = true;
    let (rows, _) = print_tree(&root, &s);
    assert_eq!(names(&rows[1..]), vec![".secret", "plain"]);
}

#[test]
fn sort_is_case_aware_and_reversible() {
    let root = dir("top", vec![file("b"), file("a"), file("B")]);
    let s = Setting::default();
    let (rows, _) = print_tree(&root, &s);
    assert_eq!(names(&rows[1..]), vec!["a", "b", "B"]);
    let mut s = Setting::default();
    s.is_sort_reverse = true;
    let (rows, _) = print_tree(&root, &s);
    assert_eq!(names(&rows[1..]), vec!["B", "b", "a"]);
}

#[test]
fn directories_come_first_when_asked() {
    let root = dir("top", vec![file("z"), dir("a", vec![])]);
    let mut s = Setting::default();
    s.is_dir_first = true;
    let (rows, _) = print_tree(&root, &s);
    assert_eq!(names(&rows[1..]), vec!["a", "z"]);
    assert!(rows[1].is_dir);
    assert!(!rows[2].is_dir);
}

#[test]
fn include_and_exclude_patterns() {
    let root = dir("top", vec![file("app.log"), file("app.txt"), file("syslog")]);
    let mut s = Setting::default();
    s.pattern_p = true;
    s.pattern = "log".to_string();
    let (rows, _) = print_tree(&root, &s);
    assert_eq!(names(&rows[1..]), vec!["app.log", "syslog"]);
    let mut s = Setting::default();
    s.pattern_i = true;
    s.pattern = "log".to_string();
    let (rows, _) = print_tree(&root, &s);
    assert_eq!(names(&rows[1..]), vec!["app.txt"]);
}

#[test]
fn pattern_matching_can_ignore_case() {
    let root = dir("top", vec![file("SysLog"), file("notes")]);
    let mut s = Setting::default();
    s.pattern_p = true;
    s.pattern = "LOG".to_string();
    s.pattern_ignore_case = true;
    let (rows, _) = print_tree(&root, &s);
    assert_eq!(names(&rows[1..]), vec!["SysLog"]);
}

#[test]
fn unreadable_subdirectory_is_skipped_not_fatal() {
    let locked = DirTree {
        entry: Entry::new(
            "/r/locked".to_string(),
            "locked".to_string(),
            String::new(),
            true,
            Some(0),
            true,
        ),
        children: Children::Unreadable,
    };
    let root = dir("top", vec![locked, file("open"), dir("sub", vec![file("inner")])]);
    let s = Setting::default();
    let (rows, counter) = print_tree(&root, &s);
    assert_eq!(names(&rows[1..]), vec!["locked", "open", "sub", "inner"]);
    let (dirs, files) = counter.summary();
    assert_eq!(dirs, 2);
    assert_eq!(files, 2);
}

#[test]
fn rendering_twice_is_identical() {
    let root = dir(
        "top",
        vec![dir("a", vec![file("x"), file("y")]), file("b")],
    );
    let s = Setting::default();
    let (rows1, c1) = print_tree(&root, &s);
    let (rows2, c2) = print_tree(&root, &s);
    assert_eq!(rows1.len(), rows2.len());
    for (r1, r2) in rows1.iter().zip(rows2.iter()) {
        assert_eq!(r1.prefix, r2.prefix);
        assert_eq!(r1.name, r2.name);
        assert_eq!(r1.is_dir, r2.is_dir);
    }
    assert_eq!(c1.summary(), c2.summary());
}

#[test]
fn depth_budget_of_one_stops_at_direct_children() {
    let root = dir(
        "top",
        vec![dir("a", vec![file("deep")]), file("b")],
    );
    let mut s = Setting::default();
    s.is_level_limited = true;
    s.level = "1".to_string();
    let (rows, _) = print_tree(&root, &s);
    assert_eq!(names(&rows[1..]), vec!["a", "b"]);
}

#[test]
fn connectors_draw_the_classic_tree() {
    let root = dir(
        "top",
        vec![dir("a", vec![file("x")]), file("b")],
    );
    let s = Setting::default();
    let (rows, _) = print_tree(&root, &s);
    assert_eq!(rows[0].prefix, "");
    assert_eq!(rows[0].name, "top");
    assert_eq!(rows[1].prefix, "├── ");
    assert_eq!(rows[1].name, "a");
    assert_eq!(rows[2].prefix, "│   └── ");
    assert_eq!(rows[2].name, "x");
    assert_eq!(rows[3].prefix, "└── ");
    assert_eq!(rows[3].name, "b");
}

#[test]
fn last_directory_pads_with_blanks() {
    let root = dir("top", vec![file("b"), dir("z", vec![file("x")])]);
    let s = Setting::default();
    let (rows, _) = print_tree(&root, &s);
    assert_eq!(rows[1].prefix, "├── ");
    assert_eq!(rows[2].prefix, "└── ");
    assert_eq!(rows[3].prefix, "    └── ");
}

#[test]
fn no_indentation_draws_nothing() {
    let root = dir("top", vec![dir("a", vec![file("x")]), file("b")]);
    let mut s = Setting::default();
    s.is_no_indentation = true;
    let (rows, _) = print_tree(&root, &s);
    for r in &rows {
        assert_eq!(r.prefix, "");
    }
    assert_eq!(names(&rows[1..]), vec!["a", "x", "b"]);
}

#[test]
fn directory_rows_match_directory_tally() {
    let root = dir(
        "top",
        vec![dir("a", vec![dir("c", vec![]), file("x")]), file("b")],
    );
    let s = Setting::default();
    let (rows, counter) = print_tree(&root, &s);
    let dir_rows = rows[1..].iter().filter(|r| r.is_dir).count() as u32;
    let file_rows = rows[1..].iter().filter(|r| !r.is_dir).count() as u32;
    let (dirs, files) = counter.summary();
    assert_eq!(dirs, dir_rows);
    assert_eq!(files, file_rows);
}

#[test]
fn summary_line_counts() {
    let root = dir("top", vec![dir("a", vec![]), file("b")]);
    let s = Setting::default();
    let (_, counter) = print_tree(&root, &s);
    assert_eq!(
        counter.print_counter(&s),
        Some("\n1 directories, 1 files".to_string())
    );
    let mut quiet = Setting::default();
    quiet.is_needing_report = false;
    assert_eq!(counter.print_counter(&quiet), None);
}

#[test]
fn quoting_and_full_path_display() {
    let e = Entry::new(
        "/r/top/n".to_string(),
        "n".to_string(),
        "top/n".to_string(),
        false,
        Some(0),
        true,
    );
    let mut s = Setting::default();
    s.is_quote = true;
    assert_eq!(e.render_name(&s), "\"n\"");
    let mut s = Setting::default();
    s.is_full_path = true;
    assert_eq!(e.render_name(&s), "top/nn");
}

#[test]
fn modification_time_sort_puts_unknown_last() {
    let mut old_file = file("young");
    old_file.entry = Entry::new(
        "/r/young".to_string(),
        "young".to_string(),
        String::new(),
        false,
        Some(50),
        true,
    );
    let mut unknown = file("unknown");
    unknown.entry = Entry::new(
        "/r/unknown".to_string(),
        "unknown".to_string(),
        String::new(),
        false,
        None,
        true,
    );
    let mut elder = file("elder");
    elder.entry = Entry::new(
        "/r/elder".to_string(),
        "elder".to_string(),
        String::new(),
        false,
        Some(10),
        true,
    );
    let root = dir("top", vec![old_file, unknown, elder]);
    let mut s = Setting::default();
    s.is_sort_alphanumerically = false;
    s.is_sort_mod_time = true;
    let (rows, _) = print_tree(&root, &s);
    assert_eq!(names(&rows[1..]), vec!["elder", "young", "unknown"]);
}

#[test]
fn unsorted_keeps_listing_order_and_skips_reverse() {
    let root = dir("top", vec![file("b"), file("a"), file("c")]);
    let mut s = Setting::default();
    s.is_unsort = true;
    s.is_sort_reverse = true;
    let (rows, _) = print_tree(&root, &s);
    assert_eq!(names(&rows[1..]), vec!["b", "a", "c"]);
}

#[test]
fn placeholder_entries_never_render() {
    let ghost = DirTree {
        entry: Entry::new(
            String::new(),
            "whatever".to_string(),
            String::new(),
            false,
            None,
            false,
        ),
        children: Children::Listed(Vec::new()),
    };
    let root = dir("top", vec![ghost, file("real")]);
    let mut s = Setting::default();
    s.is_all = true;
    let (rows, counter) = print_tree(&root, &s);
    assert_eq!(names(&rows[1..]), vec!["real"]);
    assert_eq!(counter.summary(), (0, 1));
}
