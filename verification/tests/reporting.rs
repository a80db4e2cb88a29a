use drift::config::Config;
use drift::findings::{exit_code, format_finding, path_key, sort_dedup, Finding};
use drift::reach::{index_of, intern, reachable_names, reachable_set};

fn finding(file: &str, line: u32, column: u32, rule: &str, message: &str) -> Finding {
    Finding { file: file.to_string(), line, column, rule: rule.to_string(), message: message.to_string() }
}

fn places(fs: &[Finding]) -> Vec<(String, u32, u32, String, String)> {
    fs.iter().map(|f| (f.file.clone(), f.line, f.column, f.rule.clone(), f.message.clone())).collect()
}

#[test]
fn sorted_by_file_line_column_rule_and_deduplicated() {
    let fs = vec![
        finding("b.cpp", 1, 1, "wallclock_read", "first"),
        finding("a.cpp", 9, 2, "unseeded_rng", "x"),
        finding("a.cpp", 10, 1, "unseeded_rng", "y"),
        finding("b.cpp", 1, 1, "wallclock_read", "second"),
        finding("a.cpp", 9, 2, "hashmap_iter", "z"),
    ];
    let out = sort_dedup(&fs);
    assert_eq!(
        places(&out),
        vec![
            ("a.cpp".to_string(), 9, 2, "hashmap_iter".to_string(), "z".to_string()),
            ("a.cpp".to_string(), 9, 2, "unseeded_rng".to_string(), "x".to_string()),
            ("a.cpp".to_string(), 10, 1, "unseeded_rng".to_string(), "y".to_string()),
            ("b.cpp".to_string(), 1, 1, "wallclock_read".to_string(), "first".to_string()),
        ]
    );
}

#[test]
fn paths_order_by_component_like_pathbuf() {
    let fs = vec![
        finding("src/a.b", 1, 1, "r", "1"),
        finding("src/a/b", 1, 1, "r", "2"),
        finding("src//a/b", 1, 1, "r", "3"),
        finding("src/a", 1, 1, "r", "4"),
    ];
    let out = sort_dedup(&fs);
    let files: Vec<String> = out.iter().map(|f| f.file.clone()).collect();
    assert_eq!(files, vec!["src/a", "src/a/b", "src/a.b"]);
    assert_eq!(out[1].message, "2");
    let mut expected: Vec<std::path::PathBuf> =
        ["src/a.b", "src/a/b", "src/a"].iter().map(std::path::PathBuf::from).collect();
    expected.sort();
    assert_eq!(expected, ["src/a", "src/a/b", "src/a.b"].map(std::path::PathBuf::from));
    assert_eq!(path_key(&"a//b/".chars().collect::<Vec<char>>()), path_key(&"a/b".chars().collect::<Vec<char>>()));
}

#[test]
fn report_lines_and_exit_code() {
    let f = finding("dir/x.gd", 12, 3, "wallclock_read", "msg");
    assert_eq!(format_finding(&f, "drift-godot"), "dir/x.gd:12:3: warning: msg [drift-godot::wallclock_read]");
    assert_eq!(exit_code(&vec![f]), 1);
    assert_eq!(exit_code(&Vec::new()), 0);
    let big = finding("p", 4294967295, 0, "r", "");
    assert_eq!(format_finding(&big, "t"), "p:4294967295:0: warning:  [t::r]");
}

#[test]
fn reachable_set_over_index_graph() {
    let edges = vec![vec![1, 2], vec![3], vec![], vec![1], vec![0]];
    assert_eq!(reachable_set(&edges, &vec![0]), vec![true, true, true, true, false]);
    assert_eq!(reachable_set(&edges, &vec![]), vec![false; 5]);
    assert_eq!(reachable_set(&edges, &vec![4, 4]), vec![true; 5]);
}

#[test]
fn reachable_names_over_name_edges() {
    let edge = |a: &str, b: &str| (a.to_string(), b.to_string());
    let edges = vec![edge("tick", "step"), edge("step", "integrate"), edge("idle", "tick"), edge("integrate", "step")];
    let mut r = reachable_names(&edges, &vec!["tick".to_string(), "absent".to_string()]);
    r.sort();
    assert_eq!(r, vec!["absent", "integrate", "step", "tick"]);
    assert!(reachable_names(&edges, &Vec::new()).is_empty());
}

#[test]
fn interning_keeps_names_distinct() {
    let mut names = Vec::new();
    assert_eq!(intern(&mut names, &"a".to_string()), 0);
    assert_eq!(intern(&mut names, &"b".to_string()), 1);
    assert_eq!(intern(&mut names, &"a".to_string()), 0);
    assert_eq!(names, vec!["a", "b"]);
    assert_eq!(index_of(&names, &"b".to_string()), Some(1));
    assert_eq!(index_of(&names, &"c".to_string()), None);
}

#[test]
fn default_config_is_unscoped() {
    let c = Config::default();
    assert!(c.tick_reachable_roots.is_empty());
    assert!(c.fixed_step_functions.is_empty());
    assert!(!c.is_scoped());
}
