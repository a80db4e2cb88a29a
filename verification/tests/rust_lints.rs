use drift::config::Config;
use drift::lints::{
    check_hash_impl, resolve_named_functions, usize_in_hashed_state_message, ArithSite, BinOp, FieldType,
    FloatOutsideFixedStep, FnBody, HashImplItem, HashmapIter, MethodCallSite, ParentBinary, Reachable,
    UnorderedParallelism, UnseededRng, WallclockRead,
};

fn config(roots: &[&str], exempt: &[&str]) -> Config {
    Config {
        tick_reachable_roots: roots.iter().map(|s| s.to_string()).collect(),
        fixed_step_functions: exempt.iter().map(|s| s.to_string()).collect(),
    }
}

/// The reachability fixture crate: `tick` calls `helper` and
/// `physics_integrate`; `main` calls `tick` and `unreachable_fn`.
fn fixture_bodies() -> Vec<FnBody> {
    let body = |path: &str, callees: Vec<usize>| FnBody { path: path.to_string(), callees };
    vec![
        body("tick", vec![1, 2]),
        body("helper", vec![]),
        body("physics_integrate", vec![]),
        body("unreachable_fn", vec![]),
        body("main", vec![0, 3, 99]),
    ]
}

const TICK: usize = 0;
const HELPER: usize = 1;
const PHYSICS: usize = 2;
const UNREACHABLE: usize = 3;
const MAIN: usize = 4;

fn iter_call(method: &str, owner: usize) -> MethodCallSite {
    MethodCallSite {
        method: method.to_string(),
        receiver_is_hash_container: true,
        owner,
        collected_into_binding: false,
        next_method_on_binding: None,
    }
}

fn float_add(owner: usize, parent: Option<ParentBinary>) -> ArithSite {
    ArithSite { op: BinOp::Add, lhs_is_float: true, is_compound_assign: false, parent, owner }
}

#[test]
fn reachable_from_configured_roots_only() {
    let r = Reachable::compute(&fixture_bodies(), &config(&["tick"], &["physics_integrate"]));
    assert!(r.includes(TICK));
    assert!(r.includes(HELPER));
    assert!(r.includes(PHYSICS));
    assert!(!r.includes(UNREACHABLE));
    assert!(!r.includes(MAIN));
    assert!(!r.includes(99));
}

#[test]
fn unconfigured_reachability_includes_everything() {
    let r = Reachable::compute(&fixture_bodies(), &config(&[], &[]));
    assert!(r.reached.is_none());
    assert!(r.includes(UNREACHABLE));
    assert!(r.includes(12345));
    assert!(Reachable::default().includes(0));
}

#[test]
fn named_functions_resolve_by_path() {
    let mask = resolve_named_functions(&fixture_bodies(), &vec!["physics_integrate".to_string(), "nope".to_string()]);
    assert_eq!(mask, vec![false, false, true, false, false]);
}

#[test]
fn hashmap_iteration_fires_in_reachable_code_only() {
    let mut pass = HashmapIter::new(config(&["tick"], &[]));
    pass.check_crate(&fixture_bodies());
    let hit = pass.check_method_call(&iter_call("iter", HELPER)).unwrap();
    assert_eq!(hit.message, "iterating a HashMap/HashSet \u{2014} order is not guaranteed stable across peers");
    assert_eq!(hit.help, "use a BTreeMap/BTreeSet, or sort the keys before iterating, if this feeds simulated state");
    assert!(pass.check_method_call(&iter_call("iter", UNREACHABLE)).is_none());
    assert!(pass.check_method_call(&iter_call("len", HELPER)).is_none());
    let mut vec_iter = iter_call("iter", HELPER);
    vec_iter.receiver_is_hash_container = false;
    assert!(pass.check_method_call(&vec_iter).is_none());
}

#[test]
fn hashmap_iteration_unscoped_fires_everywhere() {
    let mut pass = HashmapIter::new(config(&[], &[]));
    pass.check_crate(&fixture_bodies());
    for m in ["iter", "iter_mut", "into_iter", "keys", "values", "values_mut", "drain"] {
        assert!(pass.check_method_call(&iter_call(m, UNREACHABLE)).is_some(), "{m}");
    }
}

#[test]
fn collect_then_sort_is_recognized() {
    let pass = HashmapIter::new(config(&[], &[]));
    let mut site = iter_call("keys", MAIN);
    site.collected_into_binding = true;
    site.next_method_on_binding = Some("sort".to_string());
    assert!(pass.check_method_call(&site).is_none());
    site.next_method_on_binding = Some("sort_unstable_by_key".to_string());
    assert!(pass.check_method_call(&site).is_none());
    site.next_method_on_binding = Some("dedup".to_string());
    assert!(pass.check_method_call(&site).is_some());
    site.next_method_on_binding = None;
    assert!(pass.check_method_call(&site).is_some());
    let mut not_collected = iter_call("keys", MAIN);
    not_collected.next_method_on_binding = Some("sort".to_string());
    assert!(pass.check_method_call(&not_collected).is_some());
}

#[test]
fn unseeded_rng_paths() {
    let mut pass = UnseededRng::new(config(&[], &[]));
    pass.check_crate(&fixture_bodies());
    let hit = pass.check_call("rand::random", MAIN).unwrap();
    assert_eq!(hit.message, "call to an OS-entropy-seeded RNG source");
    assert_eq!(
        hit.help,
        "use an explicit, tracked seed (e.g. StdRng::seed_from_u64) fed by your simulation's deterministic seed"
    );
    assert!(pass.check_call("rand::thread_rng", UNREACHABLE).is_some());
    assert!(pass.check_call("rand::rngs::StdRng::seed_from_u64", MAIN).is_none());
}

#[test]
fn configured_roots_scope_every_call_rule() {
    let mut rng = UnseededRng::new(config(&["tick"], &[]));
    rng.check_crate(&fixture_bodies());
    assert!(rng.check_call("rand::random", HELPER).is_some());
    assert!(rng.check_call("rand::random", UNREACHABLE).is_none());
    let mut par = UnorderedParallelism::new(config(&["tick"], &[]));
    par.check_crate(&fixture_bodies());
    let rayon = Some("rayon::iter::IntoParallelRefIterator::par_iter".to_string());
    assert!(par.check_method_call("par_iter", &rayon, TICK).is_some());
    assert!(par.check_method_call("par_iter", &rayon, MAIN).is_none());
}

#[test]
fn wallclock_reads_in_reachable_code() {
    let mut pass = WallclockRead::new(config(&["tick"], &[]));
    pass.check_crate(&fixture_bodies());
    let hit = pass.check_call("std::time::Instant::now", TICK).unwrap();
    assert_eq!(hit.message, "wall-clock read \u{2014} not guaranteed the same across peers");
    assert!(pass.check_call("std::time::SystemTime::now", HELPER).is_some());
    assert!(pass.check_call("std::time::Instant::now", MAIN).is_none());
    assert!(pass.check_call("std::time::Duration::from_secs", TICK).is_none());
}

#[test]
fn rayon_entry_points_only() {
    let mut pass = UnorderedParallelism::new(config(&[], &[]));
    pass.check_crate(&fixture_bodies());
    let rayon = Some("rayon::iter::IntoParallelRefIterator::par_iter".to_string());
    let hit = pass.check_method_call("par_iter", &rayon, MAIN).unwrap();
    assert_eq!(hit.message, "rayon parallel iteration \u{2014} result order is scheduler-dependent");
    assert!(pass.check_method_call("par_iter", &Some("my_crate::par_iter".to_string()), MAIN).is_none());
    assert!(pass.check_method_call("par_iter", &None, MAIN).is_none());
    assert!(pass.check_method_call("iter", &rayon, MAIN).is_none());
}

#[test]
fn usize_fields_of_derived_hash() {
    let item = HashImplItem {
        automatically_derived: true,
        implements_hash: true,
        self_fields: Some(vec![FieldType::Other, FieldType::Usize, FieldType::Isize]),
    };
    assert_eq!(check_hash_impl(&item), vec![1, 2]);
    let by_hand = HashImplItem { automatically_derived: false, ..item };
    assert!(check_hash_impl(&by_hand).is_empty());
    let eq = HashImplItem { automatically_derived: true, implements_hash: false, self_fields: Some(vec![FieldType::Usize]) };
    assert!(check_hash_impl(&eq).is_empty());
    assert_eq!(usize_in_hashed_state_message().help, "use a fixed-width integer type (u32/u64/i32/i64) instead");
}

#[test]
fn float_rule_on_the_reachability_fixture() {
    let mut pass = FloatOutsideFixedStep::new(config(&["tick"], &["physics_integrate"]));
    pass.check_crate(&fixture_bodies());
    let outer = pass.check_expr(&float_add(HELPER, None)).unwrap();
    assert_eq!(outer.message, "non-associative float arithmetic reachable from simulation state");
    let inner = float_add(HELPER, Some(ParentBinary { op: BinOp::Add, lhs_is_float: true }));
    assert!(pass.check_expr(&inner).is_none());
    assert!(pass.check_expr(&float_add(PHYSICS, None)).is_none());
    assert!(pass.check_expr(&float_add(UNREACHABLE, None)).is_none());
    let compound = ArithSite {
        op: BinOp::Add,
        lhs_is_float: true,
        is_compound_assign: true,
        parent: Some(ParentBinary { op: BinOp::Mul, lhs_is_float: true }),
        owner: TICK,
    };
    assert!(pass.check_expr(&compound).is_some());
    let ints = ArithSite { op: BinOp::Rem, lhs_is_float: false, is_compound_assign: false, parent: None, owner: TICK };
    assert!(pass.check_expr(&ints).is_none());
    let compare = ArithSite { op: BinOp::Other, lhs_is_float: true, is_compound_assign: false, parent: None, owner: TICK };
    assert!(pass.check_expr(&compare).is_none());
}

#[test]
fn float_rule_is_opt_in() {
    let mut pass = FloatOutsideFixedStep::new(config(&[], &[]));
    pass.check_crate(&fixture_bodies());
    assert!(pass.check_expr(&float_add(TICK, None)).is_none());
    assert!(pass.exempt.is_empty());
}
