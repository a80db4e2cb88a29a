use drift::unreal::{
    compile_arguments, contains_ignoring_ascii_case, expand_response_files, finish_arguments,
    is_map_or_set_type, is_pointer_width_type, parse_usize, pool_size, response_file_path,
    split_command, worker_job_count,
};

fn strings(items: &[&str]) -> Vec<String> {
    items.iter().map(|s| s.to_string()).collect()
}

#[test]
fn split_command_groups_quoted_whitespace() {
    assert_eq!(
        split_command("clang++ -I\"C:/Program Files/UE\" -c  file.cpp"),
        strings(&["clang++", "-IC:/Program Files/UE", "-c", "file.cpp"])
    );
    assert_eq!(split_command("   "), Vec::<String>::new());
    assert_eq!(split_command("\"\" a"), strings(&["a"]));
    assert_eq!(split_command("a\tb\nc"), strings(&["a", "b", "c"]));
    assert_eq!(split_command("\"unterminated quote"), strings(&["unterminated quote"]));
}

#[test]
fn map_or_set_type_spellings() {
    assert!(is_map_or_set_type("TMap<FName, int32>"));
    assert!(is_map_or_set_type("const TSet<int32> &"));
    assert!(is_map_or_set_type("const const  TMap<int, int>"));
    assert!(!is_map_or_set_type("TSortedMap<int, int>"));
    assert!(!is_map_or_set_type("TMultiMap<int, int>"));
    assert!(!is_map_or_set_type("TArray<int32>"));
}

#[test]
fn pointer_width_type_spellings() {
    for t in ["SIZE_T", "size_t", "uintptr_t", "intptr_t"] {
        assert!(is_pointer_width_type(t), "{t}");
    }
    for t in ["int32", "uint64", "size_t ", "SIZE_T*"] {
        assert!(!is_pointer_width_type(t), "{t}");
    }
}

#[test]
fn compile_arguments_prefer_the_arguments_list() {
    let (rest, cl) =
        compile_arguments(&Some(strings(&["clang++", "-c", "a.cpp"])), &Some("ignored x".to_string())).unwrap();
    assert_eq!(rest, strings(&["-c", "a.cpp"]));
    assert!(!cl);
    let (rest, cl) = compile_arguments(&None, &Some("\"C:/LLVM/bin/Clang-CL.exe\" @a.rsp".to_string())).unwrap();
    assert_eq!(rest, strings(&["@a.rsp"]));
    assert!(cl);
    assert!(compile_arguments(&None, &None).is_none());
    assert!(compile_arguments(&Some(Vec::new()), &Some("clang a.cpp".to_string())).is_none());
    assert!(compile_arguments(&None, &Some("  ".to_string())).is_none());
}

#[test]
fn case_insensitive_search() {
    assert!(contains_ignoring_ascii_case("C:/Tools/CLANG-CL.EXE", "clang-cl"));
    assert!(!contains_ignoring_ascii_case("clang++", "clang-cl"));
    assert!(!contains_ignoring_ascii_case("cl", "clang-cl"));
    assert!(contains_ignoring_ascii_case("anything", ""));
}

#[test]
fn response_files_expand_in_place_with_nesting() {
    let args = strings(&["-DX", "@outer.rsp", "-c"]);
    let first = expand_response_files(&args, 0, &Vec::new());
    assert_eq!(first, Err("outer.rsp".to_string()));
    let files = vec![("outer.rsp".to_string(), Some("-Ia @inner.rsp \"-Ib c\"".to_string()))];
    assert_eq!(expand_response_files(&args, 0, &files), Err("inner.rsp".to_string()));
    let files = vec![
        ("outer.rsp".to_string(), Some("-Ia @inner.rsp \"-Ib c\"".to_string())),
        ("inner.rsp".to_string(), Some("-DINNER".to_string())),
    ];
    assert_eq!(
        expand_response_files(&args, 0, &files),
        Ok(strings(&["-DX", "-Ia", "-DINNER", "-Ib c", "-c"]))
    );
}

#[test]
fn unreadable_response_file_stays_and_depth_is_capped() {
    let files = vec![("gone.rsp".to_string(), None)];
    assert_eq!(expand_response_files(&strings(&["@gone.rsp"]), 0, &files), Ok(strings(&["@gone.rsp"])));
    let cycle = vec![("self.rsp".to_string(), Some("-x @self.rsp".to_string()))];
    let expanded = expand_response_files(&strings(&["@self.rsp"]), 0, &cycle).unwrap();
    assert_eq!(expanded.len(), 10);
    assert_eq!(expanded[9], "@self.rsp");
    assert!(expanded[..9].iter().all(|a| a == "-x"));
    assert_eq!(expand_response_files(&strings(&["@a"]), 9, &Vec::new()), Ok(strings(&["@a"])));
}

#[test]
fn response_file_paths() {
    assert_eq!(response_file_path(&"@x/y.rsp".to_string()), Some("x/y.rsp".to_string()));
    assert_eq!(response_file_path(&"-I@x".to_string()), None);
    assert_eq!(response_file_path(&"@".to_string()), Some(String::new()));
}

#[test]
fn parser_arguments_drop_the_file_and_add_flags() {
    let out = finish_arguments(&strings(&["a.cpp", "-c", "a.cpp", "-Ib"]), &"a.cpp".to_string(), true);
    assert_eq!(out, strings(&["--driver-mode=cl", "-c", "-Ib", "-ferror-limit=0"]));
    let out = finish_arguments(&Vec::new(), &"a.cpp".to_string(), false);
    assert_eq!(out, strings(&["-ferror-limit=0"]));
}

#[test]
fn usize_parsing_matches_from_str() {
    for s in ["0", "7", "+12", "0042", "18446744073709551615"] {
        assert_eq!(parse_usize(s), s.parse::<usize>().ok(), "{s}");
    }
    for s in ["", "+", "-1", " 3", "3 ", "1_000", "18446744073709551616", "++1", "12a"] {
        assert_eq!(parse_usize(s), None, "{s}");
        assert_eq!(s.parse::<usize>().ok(), None, "{s}");
    }
}

#[test]
fn job_count_from_environment_or_machine() {
    assert_eq!(worker_job_count(&Some("3".to_string()), Some(16)), 3);
    assert_eq!(worker_job_count(&Some("0".to_string()), Some(16)), 16);
    assert_eq!(worker_job_count(&Some("many".to_string()), None), 4);
    assert_eq!(worker_job_count(&None, Some(2)), 2);
    assert_eq!(worker_job_count(&None, None), 4);
    assert_eq!(pool_size(8, 3), 3);
    assert_eq!(pool_size(2, 30), 2);
    assert_eq!(pool_size(8, 0), 1);
}

#[test]
fn unquoted_commands_split_like_split_whitespace() {
    for cmd in ["clang++  -c\ta.cpp\n-o a.o ", "", "  x  ", "a\u{3000}b\u{a0}c"] {
        let expected: Vec<String> = cmd.split_whitespace().map(String::from).collect();
        assert_eq!(split_command(cmd), expected, "{cmd:?}");
    }
}

#[test]
fn quoted_arguments_round_trip() {
    let args = strings(&["-IC:/Program Files/UE", "a b\tc", "-c", "x"]);
    let joined = args.iter().map(|a| format!("\"{a}\"")).collect::<Vec<_>>().join(" ");
    assert_eq!(split_command(&joined), args);
}
