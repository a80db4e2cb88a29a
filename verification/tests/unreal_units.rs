use drift::config::Config;
use drift::cxx::{
    binary_operator_spelling, call_site_spelling, is_float_type, is_function_like, qualified_name,
    scan_translation_unit, CxDecl, CxEntity, CxKind, CxRange, CxScope, CxToken, WorkerOutput,
};
use drift::findings::{exit_code, format_finding};
use drift::unreal::merge_outputs;

fn ent(kind: CxKind) -> CxEntity {
    CxEntity {
        kind,
        name: None,
        semantic_parents: Vec::new(),
        type_spelling: None,
        range: None,
        tokens: Vec::new(),
        is_definition: false,
        reference: None,
        arguments: None,
        children: Vec::new(),
    }
}

fn ranged(mut e: CxEntity, line: u32, column: u32, start: u32, end: u32) -> CxEntity {
    e.range = Some(CxRange { file: "pawn.cpp".to_string(), line, column, start, end });
    e
}

fn toks(items: &[(&str, u32)]) -> Vec<CxToken> {
    items.iter().map(|(s, o)| CxToken { spelling: s.to_string(), offset: *o }).collect()
}

fn scope(kind: CxKind, name: &str) -> CxScope {
    CxScope { kind, name: Some(name.to_string()) }
}

fn pawn_parents() -> Vec<CxScope> {
    vec![scope(CxKind::ClassDecl, "APawn"), CxScope { kind: CxKind::Other, name: Some("pawn.cpp".to_string()) }]
}

fn var_ref(name: &str, line: u32, column: u32, start: u32) -> CxEntity {
    let mut e = ranged(ent(CxKind::Other), line, column, start, start + 1);
    e.name = Some(name.to_string());
    e.type_spelling = Some("float".to_string());
    e
}

/// `a + b + c` at the given line, as libclang nests it: `(a + b) + c`.
fn float_chain(line: u32, base: u32) -> CxEntity {
    let col = 16;
    let mut inner = ranged(ent(CxKind::BinaryOperator), line, col, base, base + 5);
    inner.type_spelling = Some("float".to_string());
    inner.tokens = toks(&[("a", base), ("+", base + 2), ("b", base + 4)]);
    inner.children = vec![var_ref("a", line, col, base), var_ref("b", line, col + 4, base + 4)];
    let mut outer = ranged(ent(CxKind::BinaryOperator), line, col, base, base + 9);
    outer.type_spelling = Some("float".to_string());
    outer.tokens = toks(&[("a", base), ("+", base + 2), ("b", base + 4), ("+", base + 6), ("c", base + 8)]);
    outer.children = vec![inner, var_ref("c", line, col + 8, base + 8)];
    outer
}

fn method(name: &str, line: u32, body: Vec<CxEntity>) -> CxEntity {
    let mut m = ranged(ent(CxKind::Method), line, 1, line * 100, line * 100 + 50);
    m.name = Some(name.to_string());
    m.semantic_parents = pawn_parents();
    m.is_definition = true;
    let mut compound = ent(CxKind::Other);
    compound.children = body;
    m.children = vec![compound];
    m
}

fn call(tokens: &[&str], line: u32, column: u32, start: u32, reference: Option<CxDecl>) -> CxEntity {
    let mut c = ranged(ent(CxKind::CallExpr), line, column, start, start + 20);
    let mut offset = start;
    let mut ts = Vec::new();
    for t in tokens {
        ts.push(CxToken { spelling: t.to_string(), offset });
        offset += t.len() as u32;
    }
    c.tokens = ts;
    c.reference = reference;
    c
}

fn pawn_decl(name: &str) -> CxDecl {
    CxDecl { name: Some(name.to_string()), semantic_parents: pawn_parents() }
}

/// The fixture's translation unit: `Tick` calls `Simulate`, which holds two
/// float chains; `Unused` holds one more but is never called; two other
/// methods read the global RNG and the wall clock.
fn pawn_unit() -> CxEntity {
    let tick = method("Tick", 30, vec![call(&["Simulate", "(", ")"], 31, 5, 3100, Some(pawn_decl("Simulate")))]);
    let simulate = method("Simulate", 33, vec![float_chain(34, 3400), float_chain(35, 3500)]);
    let unused = method("Unused", 41, vec![float_chain(42, 4200)]);
    let fire = method(
        "Fire",
        48,
        vec![call(&["FMath", "::", "FRand", "(", ")"], 49, 12, 4900, Some(CxDecl {
            name: Some("FRand".to_string()),
            semantic_parents: vec![scope(CxKind::StructDecl, "FGenericPlatformMath")],
        }))],
    );
    let now = method(
        "Now",
        63,
        vec![call(&["FPlatformTime", "::", "Seconds", "(", ")"], 64, 12, 6400, None)],
    );
    let mut class = ent(CxKind::ClassDecl);
    class.name = Some("APawn".to_string());
    let mut root = ent(CxKind::Other);
    root.children = vec![class, tick, simulate, unused, fire, now];
    root
}

fn config(roots: &[&str], exempt: &[&str]) -> Config {
    Config {
        tick_reachable_roots: roots.iter().map(|s| s.to_string()).collect(),
        fixed_step_functions: exempt.iter().map(|s| s.to_string()).collect(),
    }
}

fn run(cfg: &Config) -> (i32, Vec<String>) {
    let unit = pawn_unit();
    let out = scan_translation_unit(&unit, cfg);
    let report = merge_outputs(cfg, &vec![Some(out)]);
    let lines: Vec<String> = report.findings.iter().map(|f| format_finding(f, "drift-unreal")).collect();
    (exit_code(&report.findings), lines)
}

#[test]
fn unseeded_rng_and_wallclock_read_fire_unconditionally_with_no_config() {
    let (code, lines) = run(&config(&[], &[]));
    let stdout = lines.join("\n");
    assert_eq!(code, 1, "stdout was: {stdout}");
    assert_eq!(lines.len(), 2, "expected exactly 2 findings, got: {stdout}");
    assert!(lines[0].contains("pawn.cpp:49:12"));
    assert!(lines[0].contains("[drift-unreal::unseeded_rng]"));
    assert!(lines[1].contains("pawn.cpp:64:12"));
    assert!(lines[1].contains("[drift-unreal::wallclock_read]"));
}

#[test]
fn float_chain_flagged_once_per_statement_reachable_functions_only() {
    let (code, lines) = run(&config(&["APawn::Tick"], &[]));
    let stdout = lines.join("\n");
    assert_eq!(code, 1, "stdout was: {stdout}");
    assert_eq!(lines.len(), 4, "expected exactly 4 findings, got: {stdout}");
    assert!(lines[0].contains("pawn.cpp:34:16"));
    assert!(lines[0].contains("[drift-unreal::float_outside_fixed_step]"));
    assert!(lines[1].contains("pawn.cpp:35:16"));
    assert!(lines[1].contains("[drift-unreal::float_outside_fixed_step]"));
    assert!(lines[2].contains("pawn.cpp:49:12"));
    assert!(lines[2].contains("[drift-unreal::unseeded_rng]"));
    assert!(lines[3].contains("pawn.cpp:64:12"));
    assert!(lines[3].contains("[drift-unreal::wallclock_read]"));
    assert!(!stdout.contains("pawn.cpp:42"));
}

#[test]
fn fixed_step_functions_exemption_suppresses_only_the_float_hit() {
    let (code, lines) = run(&config(&["APawn::Tick"], &["APawn::Simulate"]));
    let stdout = lines.join("\n");
    assert_eq!(code, 1, "stdout was: {stdout}");
    assert_eq!(lines.len(), 2, "expected exactly 2 findings, got: {stdout}");
    assert!(lines[0].contains("[drift-unreal::unseeded_rng]"));
    assert!(lines[1].contains("[drift-unreal::wallclock_read]"));
}

#[test]
fn unreal_messages_and_line_format() {
    let (_code, lines) = run(&config(&["APawn::Tick"], &[]));
    assert_eq!(
        lines[0],
        "pawn.cpp:34:16: warning: float arithmetic reachable from tick-reachable code; non-associative reordering can desync across platforms [drift-unreal::float_outside_fixed_step]"
    );
    assert_eq!(
        lines[2],
        "pawn.cpp:49:12: warning: FRand() reads Unreal's global RNG, which is not seeded deterministically by default; differs per peer/run [drift-unreal::unseeded_rng]"
    );
    assert_eq!(
        lines[3],
        "pawn.cpp:64:12: warning: FPlatformTime::Seconds() reads wallclock/OS time, which differs per peer/run; do not fold it into simulated state [drift-unreal::wallclock_read]"
    );
}

#[test]
fn worker_output_edges_and_candidates_only_when_scoped() {
    let unit = pawn_unit();
    let unscoped = scan_translation_unit(&unit, &config(&[], &[]));
    assert!(unscoped.edges.is_empty());
    assert!(unscoped.float_candidates.is_empty());
    let scoped = scan_translation_unit(&unit, &config(&["APawn::Tick"], &[]));
    assert_eq!(
        scoped.edges,
        vec![
            ("APawn::Tick".to_string(), "APawn::Simulate".to_string()),
            ("APawn::Fire".to_string(), "FGenericPlatformMath::FRand".to_string()),
        ]
    );
    let owners: Vec<&str> = scoped.float_candidates.iter().map(|(o, _)| o.as_str()).collect();
    assert_eq!(owners, vec!["APawn::Simulate", "APawn::Simulate", "APawn::Unused"]);
}

#[test]
fn merge_counts_units_and_distinct_edges() {
    let cfg = config(&["APawn::Tick"], &[]);
    let a = scan_translation_unit(&pawn_unit(), &cfg);
    let b = scan_translation_unit(&pawn_unit(), &cfg);
    let report = merge_outputs(&cfg, &vec![Some(a), None, Some(b)]);
    assert_eq!(report.units_parsed, 2);
    assert_eq!(report.edges.len(), 2);
    assert_eq!(report.candidates.len(), 6);
    assert_eq!(report.findings.len(), 4);
}

#[test]
fn failed_units_contribute_nothing() {
    let cfg = config(&["APawn::Tick"], &[]);
    let report = merge_outputs(&cfg, &vec![None, Some(WorkerOutput::empty())]);
    assert_eq!(report.units_parsed, 1);
    assert!(report.findings.is_empty());
    assert_eq!(exit_code(&report.findings), 0);
}

#[test]
fn qualified_names_follow_class_and_namespace_parents() {
    let parents = vec![
        scope(CxKind::StructDecl, "Inner"),
        CxScope { kind: CxKind::Namespace, name: None },
        scope(CxKind::Namespace, "UE"),
        scope(CxKind::Other, "file.cpp"),
        scope(CxKind::Namespace, "Ignored"),
    ];
    assert_eq!(qualified_name(&Some("Run".to_string()), &parents), "UE::Inner::Run");
    assert_eq!(qualified_name(&None, &Vec::new()), "<anon>");
    assert_eq!(qualified_name(&Some("f".to_string()), &vec![scope(CxKind::Other, "x")]), "f");
}

#[test]
fn call_spelling_stops_at_the_parenthesis() {
    let c = call(&["UE", "::", "Tasks", "::", "Launch", "(", "x", ")"], 1, 1, 0, None);
    assert_eq!(call_site_spelling(&c), Some("UE::Tasks::Launch".to_string()));
    let mut unranged = c;
    unranged.range = None;
    assert_eq!(call_site_spelling(&unranged), None);
}

#[test]
fn operator_spelling_is_the_token_between_operands() {
    let chain = float_chain(10, 1000);
    assert_eq!(binary_operator_spelling(&chain), Some("+".to_string()));
    assert!(is_float_type(&chain));
    let mut lone = ranged(ent(CxKind::BinaryOperator), 1, 1, 0, 5);
    lone.children = vec![var_ref("a", 1, 1, 0)];
    assert_eq!(binary_operator_spelling(&lone), None);
    assert!(is_function_like(CxKind::FunctionTemplate));
    assert!(!is_function_like(CxKind::ClassDecl));
}

#[test]
fn compound_assignment_counts_as_float_arithmetic() {
    let mut op = ranged(ent(CxKind::CompoundAssignOperator), 7, 3, 700, 712);
    op.type_spelling = Some("double".to_string());
    op.tokens = toks(&[("Elapsed", 700), ("+=", 708), ("Dt", 711)]);
    op.children = vec![var_ref("Elapsed", 7, 3, 700), var_ref("Dt", 7, 14, 711)];
    let mut root = ent(CxKind::Other);
    root.children = vec![method("Accumulate", 6, vec![op])];
    let out = scan_translation_unit(&root, &config(&["APawn::Accumulate"], &[]));
    assert_eq!(out.float_candidates.len(), 1);
    assert_eq!(out.float_candidates[0].0, "APawn::Accumulate");
    assert_eq!(out.float_candidates[0].1.line, 7);
    assert_eq!(out.float_candidates[0].1.column, 3);
}

#[test]
fn map_iteration_by_range_for_and_create_iterator() {
    let mut range_var = ent(CxKind::Other);
    range_var.type_spelling = Some("const TMap<FName, int32> &".to_string());
    let mut decl_stmt = ent(CxKind::Other);
    decl_stmt.children = vec![range_var];
    let mut for_map = ranged(ent(CxKind::ForRangeStmt), 12, 5, 1200, 1260);
    for_map.children = vec![ent(CxKind::Other), decl_stmt];

    let mut sorted_var = ent(CxKind::Other);
    sorted_var.type_spelling = Some("TSortedMap<int, int>".to_string());
    let mut for_sorted = ranged(ent(CxKind::ForRangeStmt), 14, 5, 1400, 1460);
    for_sorted.children = vec![sorted_var];

    let mut receiver = ent(CxKind::Other);
    receiver.type_spelling = Some("TSet<int32>".to_string());
    let mut member = ent(CxKind::MemberRefExpr);
    member.name = Some("CreateConstIterator".to_string());
    member.children = vec![receiver];
    let mut it_call = call(&["Set", ".", "CreateConstIterator", "(", ")"], 16, 9, 1600, None);
    it_call.children = vec![member];

    let mut root = ent(CxKind::Other);
    root.children = vec![for_map, for_sorted, it_call];
    let out = scan_translation_unit(&root, &config(&[], &[]));
    let places: Vec<(u32, u32, String)> =
        out.findings.iter().map(|f| (f.line, f.column, f.rule.clone())).collect();
    assert_eq!(
        places,
        vec![(12, 5, "hashmap_iter".to_string()), (16, 9, "hashmap_iter".to_string())]
    );
    assert_eq!(out.findings[0].message, "iterating a TMap/TSet \u{2014} order is not guaranteed stable across peers");
}

#[test]
fn pointer_width_field_used_in_get_type_hash() {
    let mut field = ent(CxKind::FieldDecl);
    field.name = Some("Count".to_string());
    field.type_spelling = Some("SIZE_T".to_string());
    field.semantic_parents = vec![scope(CxKind::StructDecl, "FState"), scope(CxKind::Namespace, "Game")];
    let mut other_field = ent(CxKind::FieldDecl);
    other_field.name = Some("Id".to_string());
    other_field.type_spelling = Some("int32".to_string());
    other_field.semantic_parents = field.semantic_parents.iter().map(|s| CxScope { kind: s.kind, name: s.name.clone() }).collect();
    let mut strukt = ent(CxKind::StructDecl);
    strukt.children = vec![field, other_field];

    let mut count_ref = ranged(ent(CxKind::MemberRefExpr), 21, 30, 2130, 2135);
    count_ref.name = Some("Count".to_string());
    let mut id_ref = ranged(ent(CxKind::MemberRefExpr), 21, 50, 2150, 2152);
    id_ref.name = Some("Id".to_string());
    let mut hash = ranged(ent(CxKind::FunctionDecl), 20, 1, 2000, 2200);
    hash.name = Some("GetTypeHash".to_string());
    hash.is_definition = true;
    hash.arguments = Some(vec![Some(CxDecl {
        name: Some("FState".to_string()),
        semantic_parents: vec![scope(CxKind::Namespace, "Game")],
    })]);
    hash.children = vec![count_ref, id_ref];

    let mut root = ent(CxKind::Other);
    root.children = vec![strukt, hash];
    let out = scan_translation_unit(&root, &config(&[], &[]));
    assert_eq!(out.findings.len(), 1);
    assert_eq!(out.findings[0].rule, "usize_in_hashed_state");
    assert_eq!((out.findings[0].line, out.findings[0].column), (21, 30));
    assert_eq!(
        out.findings[0].message,
        "'Count' is SIZE_T/uintptr_t/intptr_t and used in a GetTypeHash overload \u{2014} width varies across platforms"
    );
}

#[test]
fn parallel_dispatch_is_flagged() {
    let mut root = ent(CxKind::Other);
    root.children = vec![
        call(&["ParallelFor", "(", "N", ")"], 3, 7, 300, None),
        call(&["AsyncTask", "(", ")"], 4, 7, 400, None),
    ];
    let out = scan_translation_unit(&root, &config(&[], &[]));
    assert_eq!(out.findings.len(), 1);
    assert_eq!(out.findings[0].rule, "unordered_parallelism");
    assert_eq!(
        out.findings[0].message,
        "ParallelFor() dispatches unordered parallel work; folding its results into simulated state without a deterministic reduction can desync across peers"
    );
}

#[test]
fn walkthrough_rng_call_is_named_by_its_function() {
    let mut global = call(&["FMath", "::", "FRand", "(", ")"], 42, 9, 4200, None);
    global.range = Some(CxRange {
        file: "Source/MyProject/MyPawn.cpp".to_string(),
        line: 42,
        column: 9,
        start: 4200,
        end: 4214,
    });
    let stream = call(&["SimRandomStream", ".", "FRand", "(", ")"], 43, 9, 4300, None);
    let mut root = ent(CxKind::Other);
    root.children = vec![global, stream];
    let out = scan_translation_unit(&root, &config(&[], &[]));
    assert_eq!(out.findings.len(), 1);
    assert_eq!(
        format_finding(&out.findings[0], "drift-unreal"),
        "Source/MyProject/MyPawn.cpp:42:9: warning: FRand() reads Unreal's global RNG, which is not seeded deterministically by default; differs per peer/run [drift-unreal::unseeded_rng]"
    );
}

#[test]
fn repeated_calls_give_one_edge_per_unit() {
    let twice = method(
        "Tick",
        10,
        vec![
            call(&["Simulate", "(", ")"], 11, 5, 1100, Some(pawn_decl("Simulate"))),
            call(&["Simulate", "(", ")"], 12, 5, 1200, Some(pawn_decl("Simulate"))),
        ],
    );
    let mut root = ent(CxKind::Other);
    root.children = vec![twice];
    let out = scan_translation_unit(&root, &config(&["APawn::Tick"], &[]));
    assert_eq!(out.edges, vec![("APawn::Tick".to_string(), "APawn::Simulate".to_string())]);
}
