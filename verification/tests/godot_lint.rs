use drift::findings::{exit_code, format_finding};
use drift::godot::{lint_sources, GdReport};

const PLAYER_GD: &str = "extends Node\n\nvar seeded_rng := RandomNumberGenerator.new()\nvar elapsed: float = 0.0\n\n\nfunc roll() -> int:\n\tvar r=randi()\n\treturn r\n\n\n\nfunc roll_seeded() -> int:\n\t# a member call on a project-owned seedable RNG\n\tvar d=seeded_rng.randi_range(1, 6)\n\treturn d\n\n\nfunc stamp_now() -> int:\n\tvar stamp=Time.get_ticks_msec()\n\treturn stamp\n\n\nfunc get_ticks_msec() -> int:\n\treturn 0\nfunc use_local_ticks() -> int:\n\tvar t=get_ticks_msec()\n\treturn t\n\n\nfunc work() -> void:\n\tpass\nfunc dispatch() -> void:\n\tWorkerThreadPool.add_task(work)\n\n\nclass TaskQueue:\n\tvar jobs := []\n\n\tfunc add_task(job) -> void:\n\t\tjobs.append(job)\n\nfunc enqueue(queue) -> void:\n\tqueue.add_task(work)\n\n\n\n\n\n\n\nfunc _physics_process(delta: float) -> void:\n\tapply_gravity(delta)\n\ttick_timer(delta)\n\nfunc apply_gravity(delta: float) -> void:\n\tvar a = 2\n\tvar b = 3\n\tvar c = a + b\n\n\n\tvar speed: float = 9.8\n\tvar total = speed * delta\n\tprint(c, total)\n\n\n\n\n\n\n\nfunc tick_timer(delta: float) -> void:\n\t# accumulate the frame time\n\telapsed += delta\n\n\n\nfunc never_called(speed2: float) -> float:\n\tvar z: float = 0.0\n\tz = speed2 * 3.5\n\treturn z\n";

const COLLISION_A_GD: &str = "extends Node\n\n\n\n\n\n\n\n\n\n\nfunc _physics_process(delta: float) -> void:\n\tvar vx = delta * 2.5\n\tprint(vx)\n";

const COLLISION_B_GD: &str = "extends Node\n\n\n\n\n\n\nfunc _physics_process(delta: float) -> void:\n\tvar v=delta * 1.5\n\tprint(v)\n";

fn lint(files: &[(&str, &str)]) -> (GdReport, Vec<String>) {
    let sources: Vec<(String, String)> = files.iter().map(|(p, s)| (p.to_string(), s.to_string())).collect();
    let report = lint_sources(&sources);
    let lines = report.findings.iter().map(|f| format_finding(f, "drift-godot")).collect();
    (report, lines)
}

#[test]
fn unconditional_rules_fire_on_bare_calls_only() {
    let (report, lines) = lint(&[("player.gd", PLAYER_GD)]);
    let stdout = lines.join("\n");
    assert_eq!(exit_code(&report.findings), 1, "stdout was: {stdout}");

    assert_eq!(lines.len(), 5, "expected exactly 5 findings, got: {stdout}");
    assert!(lines[0].contains("player.gd:8:8"));
    assert!(lines[0].contains("[drift-godot::unseeded_rng]"));
    assert!(lines[1].contains("player.gd:20:12"));
    assert!(lines[1].contains("[drift-godot::wallclock_read]"));
    assert!(lines[2].contains("player.gd:34:2"));
    assert!(lines[2].contains("[drift-godot::unordered_parallelism]"));
    assert!(lines[3].contains("player.gd:63:14"));
    assert!(lines[3].contains("[drift-godot::float_outside_fixed_step]"));
    assert!(lines[4].contains("player.gd:74:2"));
    assert!(lines[4].contains("[drift-godot::float_outside_fixed_step]"));

    assert!(!stdout.contains("player.gd:15"));
    assert!(!stdout.contains("player.gd:24"));
    assert!(!stdout.contains("player.gd:27"));
    assert!(!stdout.contains("player.gd:40"));
    assert!(!stdout.contains("player.gd:44"));
    assert!(!stdout.contains("player.gd:59"));
    assert!(!stdout.contains("player.gd:80"));
}

#[test]
fn same_named_functions_across_files_do_not_collide() {
    let (report, lines) = lint(&[("collision/a.gd", COLLISION_A_GD), ("collision/b.gd", COLLISION_B_GD)]);
    let stdout = lines.join("\n");
    assert_eq!(exit_code(&report.findings), 1, "stdout was: {stdout}");

    assert_eq!(lines.len(), 2, "expected exactly 2 findings, got: {stdout}");
    assert!(lines[0].contains("a.gd:13:11"));
    assert!(lines[0].contains("[drift-godot::float_outside_fixed_step]"));
    assert!(lines[1].contains("b.gd:9:8"));
    assert!(lines[1].contains("[drift-godot::float_outside_fixed_step]"));
}

#[test]
fn godot_report_lists_functions_and_reachable_names() {
    let (report, _lines) = lint(&[("player.gd", PLAYER_GD)]);
    let mut reachable = report.reachable.clone();
    reachable.sort();
    assert_eq!(reachable, vec!["_physics_process", "apply_gravity", "print", "tick_timer"]);
    assert!(report.functions.contains(&"never_called".to_string()));
    assert!(report.functions.contains(&"add_task".to_string()));
    assert!(!report.reachable.contains(&"never_called".to_string()));
    assert_eq!(report.parse_errors, 0);
}

#[test]
fn godot_full_report_line_format() {
    let (_report, lines) = lint(&[("player.gd", PLAYER_GD)]);
    assert_eq!(
        lines[0],
        "player.gd:8:8: warning: randi() reads or reseeds Godot's global RNG, which is not deterministically tracked by default; differs per peer/run [drift-godot::unseeded_rng]"
    );
    assert_eq!(
        lines[3],
        "player.gd:63:14: warning: float arithmetic reachable from _process/_physics_process; non-associative reordering can desync across peers [drift-godot::float_outside_fixed_step]"
    );
}

#[test]
fn godot_float_rule_needs_a_root() {
    let source = "func helper(delta: float) -> float:\n\treturn delta * 2.0\n";
    let (report, lines) = lint(&[("helper.gd", source)]);
    assert!(lines.is_empty(), "got: {lines:?}");
    assert_eq!(exit_code(&report.findings), 0);
    assert!(report.reachable.is_empty());
}

#[test]
fn godot_chain_reported_once_at_outermost() {
    let source = "func _process(delta: float) -> void:\n\tvar s = delta + delta + delta\n";
    let (_report, lines) = lint(&[("chain.gd", source)]);
    assert_eq!(lines.len(), 1, "got: {lines:?}");
    assert!(lines[0].starts_with("chain.gd:2:10:"));
}

#[test]
fn godot_self_call_reaches_callee() {
    let source = "func _process(delta: float) -> void:\n\tself.step(delta)\n\nfunc step(dt: float) -> void:\n\tvar x = dt / 3.0\n";
    let (report, lines) = lint(&[("self.gd", source)]);
    assert!(report.reachable.contains(&"step".to_string()));
    assert_eq!(lines.len(), 1, "got: {lines:?}");
    assert!(lines[0].starts_with("self.gd:5:10:"));
}

/// Float findings sit at their first real token; a call is located at the
/// start of its node's range, and a call opening a statement that follows
/// another statement starts with the line break before it.
#[test]
fn godot_float_operands_and_compound_assignments() {
    let source = "func _process(delta: float) -> void:\n\
                  \tvar a = 2\n\
                  \tvar b = a + 1.5\n\
                  \tvar c = a + 1\n\
                  \tvar d = -(delta) * a\n\
                  \tvar e = delta > 0.5\n\
                  \tvar n: int = 3\n\
                  \tvar f = n * a\n\
                  \ta -= 0.5\n\
                  \ta *= 2\n\
                  \tvar w=OS.get_ticks_usec()\n\
                  \tWorkerThreadPool.add_group_task(work, 4)\n\
                  \trandomize()\n";
    let (_report, lines) = lint(&[("ops.gd", source)]);
    let heads: Vec<String> = lines
        .iter()
        .map(|l| {
            let place = l.split(": warning: ").next().unwrap().to_string();
            let rule = l.rsplit("::").next().unwrap().trim_end_matches(']').to_string();
            format!("{place} {rule}")
        })
        .collect();
    assert_eq!(
        heads,
        vec![
            "ops.gd:3:10 float_outside_fixed_step",
            "ops.gd:5:10 float_outside_fixed_step",
            "ops.gd:9:2 float_outside_fixed_step",
            "ops.gd:11:8 wallclock_read",
            "ops.gd:11:27 unordered_parallelism",
            "ops.gd:12:42 unseeded_rng",
        ]
    );
}
