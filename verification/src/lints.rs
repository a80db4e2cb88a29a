use vstd::prelude::*;
use vstd::string::*;
use crate::config::Config;
use crate::reach::{texts, graph_view, well_formed_graph, roots_in_range, reachable, reachable_set, index_of, lemma_index_found};
use crate::text::{chars_of, in_list, starts_with, has_prefix};

verus! {

// ---- The crate's call graph ------------------------------------------------------------

/// A function body of the crate being linted: its `def_path_str` (crate
/// relative, as `dylint.toml` names functions) and the positions, among the
/// crate's bodies, of the local functions it calls directly.
pub struct FnBody {
    pub path: String,
    pub callees: Vec<usize>,
}

/// The callees in `cs` that are bodies of a crate with `n` bodies, in order.
pub open spec fn callees_below(cs: Seq<usize>, n: int) -> Seq<usize>
    decreases cs.len(),
{
    if cs.len() == 0 {
        Seq::empty()
    } else {
        callees_below(cs.drop_last(), n) + if (cs.last() as int) < n {
            seq![cs.last()]
        } else {
            Seq::empty()
        }
    }
}

/// The call graph over the crate's bodies: each body's callees that are
/// bodies themselves (a call to a local function without a body has no
/// calls of its own to follow).
pub open spec fn call_graph(bodies: Seq<FnBody>) -> Seq<Seq<usize>> {
    Seq::new(bodies.len(), |i: int| callees_below(bodies[i].callees@, bodies.len() as int))
}

/// The positions of the bodies, among the first `k`, whose path is one of `names`.
pub open spec fn named_positions(bodies: Seq<FnBody>, names: Seq<Seq<char>>, k: int) -> Seq<usize>
    decreases k,
{
    if k <= 0 || k > bodies.len() {
        Seq::empty()
    } else {
        named_positions(bodies, names, k - 1) + if names.contains(bodies[k - 1].path@) {
            seq![(k - 1) as usize]
        } else {
            Seq::empty()
        }
    }
}

/// The bodies whose path is one of `names`, as a membership vector over the
/// bodies.
pub fn resolve_named_functions(bodies: &Vec<FnBody>, names: &Vec<String>) -> (r: Vec<bool>)
    ensures
        r@.len() == bodies@.len(),
        forall|i: int| 0 <= i < bodies@.len() ==> (#[trigger] r@[i] <==> texts(names@).contains(bodies@[i].path@)),
{
    let mut r: Vec<bool> = Vec::new();
    let mut i: usize = 0;
    while i < bodies.len()
        invariant
            i <= bodies@.len(),
            r@.len() == i,
            forall|j: int| 0 <= j < i ==> (#[trigger] r@[j] <==> texts(names@).contains(bodies@[j].path@)),
        decreases bodies.len() - i,
    {
        let found = index_of(names, &bodies[i].path);
        proof {
            lemma_index_found(names@, bodies@[i as int].path@, found is Some);
        }
        r.push(found.is_some());
        i = i + 1;
    }
    r
}

fn named_positions_exec(bodies: &Vec<FnBody>, names: &Vec<String>) -> (r: Vec<usize>)
    ensures
        r@ == named_positions(bodies@, texts(names@), bodies@.len() as int),
        roots_in_range(r@, bodies@.len() as int),
{
    let mask = resolve_named_functions(bodies, names);
    let mut r: Vec<usize> = Vec::new();
    let mut i: usize = 0;
    while i < bodies.len()
        invariant
            i <= bodies@.len(),
            mask@.len() == bodies@.len(),
            forall|j: int| 0 <= j < bodies@.len() ==> (#[trigger] mask@[j] <==> texts(names@).contains(bodies@[j].path@)),
            r@ == named_positions(bodies@, texts(names@), i as int),
            forall|k: int| 0 <= k < r@.len() ==> (#[trigger] r@[k] as int) < i,
        decreases bodies.len() - i,
    {
        if mask[i] {
            r.push(i);
        }
        i = i + 1;
    }
    r
}

fn callees_below_exec(cs: &Vec<usize>, n: usize) -> (r: Vec<usize>)
    ensures
        r@ == callees_below(cs@, n as int),
{
    let mut r: Vec<usize> = Vec::new();
    let mut i: usize = 0;
    while i < cs.len()
        invariant
            i <= cs@.len(),
            r@ == callees_below(cs@.take(i as int), n as int),
        decreases cs.len() - i,
    {
        proof {
            assert(cs@.take(i + 1).drop_last() =~= cs@.take(i as int));
        }
        if cs[i] < n {
            r.push(cs[i]);
        }
        assert(r@ =~= callees_below(cs@.take(i + 1), n as int));
        i = i + 1;
    }
    assert(cs@.take(cs@.len() as int) =~= cs@);
    r
}

proof fn lemma_callees_below_in_range(cs: Seq<usize>, n: int)
    ensures
        forall|k: int| 0 <= k < callees_below(cs, n).len() ==> (#[trigger] callees_below(cs, n)[k] as int) < n,
    decreases cs.len(),
{
    if cs.len() > 0 {
        lemma_callees_below_in_range(cs.drop_last(), n);
        let a = callees_below(cs.drop_last(), n);
        assert forall|k: int| 0 <= k < callees_below(cs, n).len() implies (#[trigger] callees_below(cs, n)[k] as int) < n by {
            if k < a.len() {
                assert(callees_below(cs, n)[k] == a[k]);
            }
        }
    }
}

// ---- Reachability scoping ------------------------------------------------------------

/// Which functions the scoped rules fire in: `None` when no roots are
/// configured (every function), else a membership vector over the bodies.
pub struct Reachable {
    pub reached: Option<Vec<bool>>,
}

impl Default for Reachable {
    /// Not configured: every function is included.
    fn default() -> (r: Self)
        ensures
            r.reached is None,
    {
        Reachable { reached: None }
    }
}

/// Whether the scoping includes the body at `id`.
pub open spec fn includes_spec(r: Reachable, id: usize) -> bool {
    match r.reached {
        None => true,
        Some(v) => (id as int) < v@.len() && v@[id as int],
    }
}

impl Reachable {
    /// The bodies reachable from the configured roots (the bodies whose path
    /// is listed in `tick_reachable_roots`) over the direct call graph;
    /// everything when no root is configured.
    pub fn compute(bodies: &Vec<FnBody>, config: &Config) -> (r: Self)
        ensures
            config.tick_reachable_roots@.len() == 0 ==> r.reached is None,
            config.tick_reachable_roots@.len() > 0 ==> r.reached is Some,
            forall|v: usize|
                #![trigger includes_spec(r, v)]
                config.tick_reachable_roots@.len() > 0 && (v as int) < bodies@.len() ==> (includes_spec(r, v)
                    <==> reachable(
                    call_graph(bodies@),
                    named_positions(bodies@, texts(config.tick_reachable_roots@), bodies@.len() as int),
                    v,
                )),
            forall|v: usize|
                #![trigger includes_spec(r, v)]
                config.tick_reachable_roots@.len() > 0 && (v as int) >= bodies@.len() ==> !includes_spec(r, v),
    {
        if config.tick_reachable_roots.len() == 0 {
            return Reachable { reached: None };
        }
        let n = bodies.len();
        let mut edges: Vec<Vec<usize>> = Vec::new();
        let mut i: usize = 0;
        while i < n
            invariant
                n == bodies@.len(),
                i <= n,
                edges@.len() == i,
                forall|j: int| 0 <= j < i ==> (#[trigger] edges@[j])@ == callees_below(bodies@[j].callees@, n as int),
            decreases n - i,
        {
            edges.push(callees_below_exec(&bodies[i].callees, n));
            i = i + 1;
        }
        assert(graph_view(edges@) =~= call_graph(bodies@));
        proof {
            assert forall|a: int, k: int|
                #![trigger graph_view(edges@)[a][k]]
                0 <= a < graph_view(edges@).len() && 0 <= k < graph_view(edges@)[a].len() implies (graph_view(
                edges@,
            )[a][k] as int) < graph_view(edges@).len() by {
                lemma_callees_below_in_range(bodies@[a].callees@, n as int);
            }
        }
        let roots = named_positions_exec(bodies, &config.tick_reachable_roots);
        let reached = reachable_set(&edges, &roots);
        Reachable { reached: Some(reached) }
    }

    /// Should a scoped rule fire on something inside the body at `id`?
    pub fn includes(&self, id: usize) -> (r: bool)
        ensures
            r == includes_spec(*self, id),
    {
        match &self.reached {
            None => true,
            Some(v) => id < v.len() && v[id],
        }
    }
}

// ---- Diagnostics -----------------------------------------------------------------------

/// What a lint reports: its message and its help text.
pub struct LintMessage {
    pub message: String,
    pub help: String,
}

fn lint_message(message: &str, help: &str) -> (m: LintMessage)
    ensures
        m.message@ == message@,
        m.help@ == help@,
{
    LintMessage { message: String::from_str(message), help: String::from_str(help) }
}

/// The report of a lint that fired or not.
pub open spec fn reported(m: Option<LintMessage>, fires: bool, message: Seq<char>, help: Seq<char>) -> bool {
    match m {
        Some(x) => fires && x.message@ == message && x.help@ == help,
        None => !fires,
    }
}

// ---- drift::hashmap_iter ------------------------------------------------------------

/// The iteration methods of `HashMap`/`HashSet` the rule flags.
pub open spec fn hash_iteration_methods() -> Seq<Seq<char>> {
    seq!["iter"@, "iter_mut"@, "into_iter"@, "keys"@, "values"@, "values_mut"@, "drain"@]
}

/// The sorting methods that make a collected iteration order irrelevant.
pub open spec fn sort_methods() -> Seq<Seq<char>> {
    seq!["sort"@, "sort_by"@, "sort_by_key"@, "sort_unstable"@, "sort_unstable_by"@, "sort_unstable_by_key"@]
}

/// A method call as `drift::hashmap_iter` sees it.
pub struct MethodCallSite {
    /// The method's name.
    pub method: String,
    /// The receiver (references peeled) is a `HashMap` or `HashSet`.
    pub receiver_is_hash_container: bool,
    /// The body the call lies in.
    pub owner: usize,
    /// The call's result is `.collect()`ed as the whole initializer of a
    /// `let` binding.
    pub collected_into_binding: bool,
    /// The method the very next statement of the same block calls on that
    /// binding, if it calls one.
    pub next_method_on_binding: Option<String>,
}

/// The collect-then-sort shape: collected into a binding that the very next
/// statement sorts.
pub open spec fn sorted_right_after(site: MethodCallSite) -> bool {
    site.collected_into_binding && match site.next_method_on_binding {
        Some(m) => sort_methods().contains(m@),
        None => false,
    }
}

/// Whether `drift::hashmap_iter` fires on a method call.
pub open spec fn hashmap_iter_fires(reachable: Reachable, site: MethodCallSite) -> bool {
    &&& hash_iteration_methods().contains(site.method@)
    &&& site.receiver_is_hash_container
    &&& includes_spec(reachable, site.owner)
    &&& !sorted_right_after(site)
}

/// The lint pass of `drift::hashmap_iter`.
pub struct HashmapIter {
    pub config: Config,
    pub reachable: Reachable,
}

impl HashmapIter {
    /// A pass with the given configuration, scoped to nothing yet.
    pub fn new(config: Config) -> (r: Self)
        ensures
            r.config == config,
            r.reachable.reached is None,
    {
        HashmapIter { config, reachable: Reachable::default() }
    }

    /// Computes the reachability scoping once the crate's bodies are known.
    pub fn check_crate(&mut self, bodies: &Vec<FnBody>)
        ensures
            final(self).config == old(self).config,
            final(self).reachable.reached is None <==> old(self).config.tick_reachable_roots@.len() == 0,
            forall|v: usize|
                #![trigger includes_spec(final(self).reachable, v)]
                old(self).config.tick_reachable_roots@.len() > 0 && (v as int) < bodies@.len() ==> (includes_spec(
                    final(self).reachable,
                    v,
                ) <==> reachable(
                    call_graph(bodies@),
                    named_positions(bodies@, texts(old(self).config.tick_reachable_roots@), bodies@.len() as int),
                    v,
                )),
            forall|v: usize|
                #![trigger includes_spec(final(self).reachable, v)]
                old(self).config.tick_reachable_roots@.len() > 0 && (v as int) >= bodies@.len() ==> !includes_spec(
                    final(self).reachable,
                    v,
                ),
    {
        self.reachable = Reachable::compute(bodies, &self.config);
    }

    /// The report on a method call: iterating a `HashMap`/`HashSet` inside an
    /// included function, unless the result is collected and sorted right
    /// after.
    pub fn check_method_call(&self, site: &MethodCallSite) -> (r: Option<LintMessage>)
        ensures
            reported(
                r,
                hashmap_iter_fires(self.reachable, *site),
                "iterating a HashMap/HashSet \u{2014} order is not guaranteed stable across peers"@,
                "use a BTreeMap/BTreeSet, or sort the keys before iterating, if this feeds simulated state"@,
            ),
    {
        let name = chars_of(site.method.as_str());
        let methods: Vec<&str> = vec!["iter", "iter_mut", "into_iter", "keys", "values", "values_mut", "drain"];
        if !in_list(name.as_slice(), &methods, Ghost(hash_iteration_methods())) {
            return None;
        }
        if !site.receiver_is_hash_container || !self.reachable.includes(site.owner) {
            return None;
        }
        if site.collected_into_binding {
            match &site.next_method_on_binding {
                Some(m) => {
                    let sorts: Vec<&str> = vec![
                        "sort",
                        "sort_by",
                        "sort_by_key",
                        "sort_unstable",
                        "sort_unstable_by",
                        "sort_unstable_by_key",
                    ];
                    if in_list(chars_of(m.as_str()).as_slice(), &sorts, Ghost(sort_methods())) {
                        return None;
                    }
                },
                None => {},
            }
        }
        Some(
            lint_message(
                "iterating a HashMap/HashSet \u{2014} order is not guaranteed stable across peers",
                "use a BTreeMap/BTreeSet, or sort the keys before iterating, if this feeds simulated state",
            ),
        )
    }
}

// ---- drift::unseeded_rng ------------------------------------------------------------

/// The OS-entropy-seeded RNG sources.
pub open spec fn unseeded_rng_paths() -> Seq<Seq<char>> {
    seq!["rand::thread_rng"@, "rand::random"@]
}

/// Whether `drift::unseeded_rng` fires on a call whose callee resolves to
/// `def_path`, inside the body at `owner`.
pub open spec fn unseeded_rng_fires(reachable: Reachable, def_path: Seq<char>, owner: usize) -> bool {
    unseeded_rng_paths().contains(def_path) && includes_spec(reachable, owner)
}

/// The lint pass of `drift::unseeded_rng`.
pub struct UnseededRng {
    pub config: Config,
    pub reachable: Reachable,
}

impl UnseededRng {
    /// A pass with the given configuration, scoped to nothing yet.
    pub fn new(config: Config) -> (r: Self)
        ensures
            r.config == config,
            r.reachable.reached is None,
    {
        UnseededRng { config, reachable: Reachable::default() }
    }

    /// Computes the reachability scoping once the crate's bodies are known.
    pub fn check_crate(&mut self, bodies: &Vec<FnBody>)
        ensures
            final(self).config == old(self).config,
            final(self).reachable.reached is None <==> old(self).config.tick_reachable_roots@.len() == 0,
            forall|v: usize|
                #![trigger includes_spec(final(self).reachable, v)]
                old(self).config.tick_reachable_roots@.len() > 0 && (v as int) < bodies@.len() ==> (includes_spec(
                    final(self).reachable,
                    v,
                ) <==> reachable(
                    call_graph(bodies@),
                    named_positions(bodies@, texts(old(self).config.tick_reachable_roots@), bodies@.len() as int),
                    v,
                )),
            forall|v: usize|
                #![trigger includes_spec(final(self).reachable, v)]
                old(self).config.tick_reachable_roots@.len() > 0 && (v as int) >= bodies@.len() ==> !includes_spec(
                    final(self).reachable,
                    v,
                ),
    {
        self.reachable = Reachable::compute(bodies, &self.config);
    }

    /// The report on a call whose callee resolves to `def_path`, inside the
    /// body at `owner`: a call to an OS-entropy-seeded RNG source inside an
    /// included function.
    pub fn check_call(&self, def_path: &str, owner: usize) -> (r: Option<LintMessage>)
        ensures
            reported(
                r,
                unseeded_rng_fires(self.reachable, def_path@, owner),
                "call to an OS-entropy-seeded RNG source"@,
                "use an explicit, tracked seed (e.g. StdRng::seed_from_u64) fed by your simulation's deterministic seed"@,
            ),
    {
        let paths: Vec<&str> = vec!["rand::thread_rng", "rand::random"];
        if !in_list(chars_of(def_path).as_slice(), &paths, Ghost(unseeded_rng_paths())) {
            return None;
        }
        if !self.reachable.includes(owner) {
            return None;
        }
        Some(
            lint_message(
                "call to an OS-entropy-seeded RNG source",
                "use an explicit, tracked seed (e.g. StdRng::seed_from_u64) fed by your simulation's deterministic seed",
            ),
        )
    }
}

// ---- drift::wallclock_read ------------------------------------------------------------

/// The wall-clock reads.
pub open spec fn wallclock_paths() -> Seq<Seq<char>> {
    seq!["std::time::SystemTime::now"@, "std::time::Instant::now"@]
}

/// Whether `drift::wallclock_read` fires on a call whose callee resolves to
/// `def_path`, inside the body at `owner`.
pub open spec fn wallclock_read_fires(reachable: Reachable, def_path: Seq<char>, owner: usize) -> bool {
    wallclock_paths().contains(def_path) && includes_spec(reachable, owner)
}

/// The lint pass of `drift::wallclock_read`.
pub struct WallclockRead {
    pub config: Config,
    pub reachable: Reachable,
}

impl WallclockRead {
    /// A pass with the given configuration, scoped to nothing yet.
    pub fn new(config: Config) -> (r: Self)
        ensures
            r.config == config,
            r.reachable.reached is None,
    {
        WallclockRead { config, reachable: Reachable::default() }
    }

    /// Computes the reachability scoping once the crate's bodies are known.
    pub fn check_crate(&mut self, bodies: &Vec<FnBody>)
        ensures
            final(self).config == old(self).config,
            final(self).reachable.reached is None <==> old(self).config.tick_reachable_roots@.len() == 0,
            forall|v: usize|
                #![trigger includes_spec(final(self).reachable, v)]
                old(self).config.tick_reachable_roots@.len() > 0 && (v as int) < bodies@.len() ==> (includes_spec(
                    final(self).reachable,
                    v,
                ) <==> reachable(
                    call_graph(bodies@),
                    named_positions(bodies@, texts(old(self).config.tick_reachable_roots@), bodies@.len() as int),
                    v,
                )),
            forall|v: usize|
                #![trigger includes_spec(final(self).reachable, v)]
                old(self).config.tick_reachable_roots@.len() > 0 && (v as int) >= bodies@.len() ==> !includes_spec(
                    final(self).reachable,
                    v,
                ),
    {
        self.reachable = Reachable::compute(bodies, &self.config);
    }

    /// The report on a call whose callee resolves to `def_path`, inside the
    /// body at `owner`: a wall-clock read inside an included function.
    pub fn check_call(&self, def_path: &str, owner: usize) -> (r: Option<LintMessage>)
        ensures
            reported(
                r,
                wallclock_read_fires(self.reachable, def_path@, owner),
                "wall-clock read \u{2014} not guaranteed the same across peers"@,
                "use your simulation's own deterministic tick counter if this feeds simulated state"@,
            ),
    {
        let paths: Vec<&str> = vec!["std::time::SystemTime::now", "std::time::Instant::now"];
        if !in_list(chars_of(def_path).as_slice(), &paths, Ghost(wallclock_paths())) {
            return None;
        }
        if !self.reachable.includes(owner) {
            return None;
        }
        Some(
            lint_message(
                "wall-clock read \u{2014} not guaranteed the same across peers",
                "use your simulation's own deterministic tick counter if this feeds simulated state",
            ),
        )
    }
}

// ---- drift::unordered_parallelism ------------------------------------------------------

/// rayon's parallel-iterator entry points.
pub open spec fn parallel_methods() -> Seq<Seq<char>> {
    seq!["par_iter"@, "par_iter_mut"@, "into_par_iter"@, "par_bridge"@]
}

/// Whether `drift::unordered_parallelism` fires on a call of `method`
/// whose resolved definition has the path `def_path` (if it resolves),
/// inside the body at `owner`.
pub open spec fn unordered_parallelism_fires(
    reachable: Reachable,
    method: Seq<char>,
    def_path: Option<Seq<char>>,
    owner: usize,
) -> bool {
    &&& parallel_methods().contains(method)
    &&& match def_path {
        Some(p) => has_prefix(p, "rayon::"@),
        None => false,
    }
    &&& includes_spec(reachable, owner)
}

/// The lint pass of `drift::unordered_parallelism`.
pub struct UnorderedParallelism {
    pub config: Config,
    pub reachable: Reachable,
}

impl UnorderedParallelism {
    /// A pass with the given configuration, scoped to nothing yet.
    pub fn new(config: Config) -> (r: Self)
        ensures
            r.config == config,
            r.reachable.reached is None,
    {
        UnorderedParallelism { config, reachable: Reachable::default() }
    }

    /// Computes the reachability scoping once the crate's bodies are known.
    pub fn check_crate(&mut self, bodies: &Vec<FnBody>)
        ensures
            final(self).config == old(self).config,
            final(self).reachable.reached is None <==> old(self).config.tick_reachable_roots@.len() == 0,
            forall|v: usize|
                #![trigger includes_spec(final(self).reachable, v)]
                old(self).config.tick_reachable_roots@.len() > 0 && (v as int) < bodies@.len() ==> (includes_spec(
                    final(self).reachable,
                    v,
                ) <==> reachable(
                    call_graph(bodies@),
                    named_positions(bodies@, texts(old(self).config.tick_reachable_roots@), bodies@.len() as int),
                    v,
                )),
            forall|v: usize|
                #![trigger includes_spec(final(self).reachable, v)]
                old(self).config.tick_reachable_roots@.len() > 0 && (v as int) >= bodies@.len() ==> !includes_spec(
                    final(self).reachable,
                    v,
                ),
    {
        self.reachable = Reachable::compute(bodies, &self.config);
    }

    /// The report on a call of `method` whose resolved definition has the
    /// path `def_path` (if it resolves), inside the body at `owner`: one of
    /// rayon's own parallel-iterator entry points inside an included
    /// function.
    pub fn check_method_call(&self, method: &str, def_path: &Option<String>, owner: usize) -> (r: Option<LintMessage>)
        ensures
            reported(
                r,
                unordered_parallelism_fires(self.reachable, method@, crate::cxx::opt_text(*def_path), owner),
                "rayon parallel iteration \u{2014} result order is scheduler-dependent"@,
                "confirm the terminal reduction is order-independent (commutative), or suppress if already confirmed"@,
            ),
    {
        let methods: Vec<&str> = vec!["par_iter", "par_iter_mut", "into_par_iter", "par_bridge"];
        if !in_list(chars_of(method).as_slice(), &methods, Ghost(parallel_methods())) {
            return None;
        }
        let rayon = match def_path {
            Some(p) => starts_with(chars_of(p.as_str()).as_slice(), chars_of("rayon::").as_slice()),
            None => false,
        };
        if !rayon || !self.reachable.includes(owner) {
            return None;
        }
        Some(
            lint_message(
                "rayon parallel iteration \u{2014} result order is scheduler-dependent",
                "confirm the terminal reduction is order-independent (commutative), or suppress if already confirmed",
            ),
        )
    }
}

// ---- drift::usize_in_hashed_state ---------------------------------------------------------

/// The type of a struct field, as far as the rule cares.
#[derive(PartialEq, Eq, Structural, Clone, Copy)]
pub enum FieldType {
    Usize,
    Isize,
    Other,
}

/// An item as `drift::usize_in_hashed_state` sees it.
pub struct HashImplItem {
    /// The item is an `impl` the compiler generated from a `derive`.
    pub automatically_derived: bool,
    /// It implements `std::hash::Hash`.
    pub implements_hash: bool,
    /// The types of the fields of its self type, when that type is a struct
    /// or enum (every variant's fields, in order).
    pub self_fields: Option<Vec<FieldType>>,
}

/// The positions of the fields `drift::usize_in_hashed_state` flags among
/// the first `k` fields.
pub open spec fn flagged_fields(fields: Seq<FieldType>, k: int) -> Seq<usize>
    decreases k,
{
    if k <= 0 || k > fields.len() {
        Seq::empty()
    } else {
        flagged_fields(fields, k - 1) + if fields[k - 1] != FieldType::Other {
            seq![(k - 1) as usize]
        } else {
            Seq::empty()
        }
    }
}

/// The fields a derived `Hash` impl draws `drift::usize_in_hashed_state` on.
pub open spec fn usize_in_hashed_state_spec(item: HashImplItem) -> Seq<usize> {
    if item.automatically_derived && item.implements_hash {
        match item.self_fields {
            Some(f) => flagged_fields(f@, f@.len() as int),
            None => Seq::empty(),
        }
    } else {
        Seq::empty()
    }
}

/// The positions of the `usize`/`isize` fields of a struct deriving `Hash`,
/// each of which the rule reports with [`usize_in_hashed_state_message`].
pub fn check_hash_impl(item: &HashImplItem) -> (r: Vec<usize>)
    ensures
        r@ == usize_in_hashed_state_spec(*item),
{
    let mut r: Vec<usize> = Vec::new();
    if !item.automatically_derived || !item.implements_hash {
        return r;
    }
    match &item.self_fields {
        Some(f) => {
            let mut i: usize = 0;
            while i < f.len()
                invariant
                    i <= f@.len(),
                    r@ == flagged_fields(f@, i as int),
                decreases f.len() - i,
            {
                if f[i] != FieldType::Other {
                    r.push(i);
                }
                i = i + 1;
            }
            r
        },
        None => r,
    }
}

/// The message and help of `drift::usize_in_hashed_state`.
pub fn usize_in_hashed_state_message() -> (m: LintMessage)
    ensures
        m.message@ == "usize/isize field on a struct deriving Hash \u{2014} width varies across platforms"@,
        m.help@ == "use a fixed-width integer type (u32/u64/i32/i64) instead"@,
{
    lint_message(
        "usize/isize field on a struct deriving Hash \u{2014} width varies across platforms",
        "use a fixed-width integer type (u32/u64/i32/i64) instead",
    )
}

// ---- drift::float_outside_fixed_step ---------------------------------------------------

/// The binary operators of rustc's HIR.
#[derive(PartialEq, Eq, Structural, Clone, Copy)]
pub enum BinOp {
    Add,
    Sub,
    Mul,
    Div,
    Rem,
    Other,
}

/// The operators whose float forms are not associative.
pub open spec fn flagged_op(op: BinOp) -> bool {
    op != BinOp::Other
}

/// A binary expression's parent, when the parent is itself a binary
/// expression: its operator and whether its left operand is a float.
pub struct ParentBinary {
    pub op: BinOp,
    pub lhs_is_float: bool,
}

/// A binary or compound-assignment expression as
/// `drift::float_outside_fixed_step` sees it.
pub struct ArithSite {
    pub op: BinOp,
    /// Its left operand's type is a float.
    pub lhs_is_float: bool,
    /// It is a compound assignment (`x += y`), never part of a chain.
    pub is_compound_assign: bool,
    /// Its parent, when that is a binary expression.
    pub parent: Option<ParentBinary>,
    /// The body it lies in.
    pub owner: usize,
}

/// The expression is an inner link of a float chain: its parent is float
/// arithmetic too (a chain is reported once, at its outermost operator).
pub open spec fn inside_float_chain(site: ArithSite) -> bool {
    !site.is_compound_assign && match site.parent {
        Some(p) => flagged_op(p.op) && p.lhs_is_float,
        None => false,
    }
}

/// The lint pass of `drift::float_outside_fixed_step`: opt-in, it fires
/// only once roots are configured.
pub struct FloatOutsideFixedStep {
    pub config: Config,
    pub reachable: Reachable,
    /// The bodies listed in `fixed_step_functions`.
    pub exempt: Vec<bool>,
}

/// The body at `id` is exempt.
pub open spec fn exempt_spec(exempt: Seq<bool>, id: usize) -> bool {
    (id as int) < exempt.len() && exempt[id as int]
}

/// Whether `drift::float_outside_fixed_step` fires on an expression.
pub open spec fn float_fires(pass: FloatOutsideFixedStep, site: ArithSite) -> bool {
    &&& pass.config.tick_reachable_roots@.len() > 0
    &&& flagged_op(site.op)
    &&& site.lhs_is_float
    &&& !inside_float_chain(site)
    &&& !exempt_spec(pass.exempt@, site.owner)
    &&& includes_spec(pass.reachable, site.owner)
}

impl FloatOutsideFixedStep {
    /// A pass with the given configuration, scoped to nothing yet.
    pub fn new(config: Config) -> (r: Self)
        ensures
            r.config == config,
            r.reachable.reached is None,
            r.exempt@.len() == 0,
    {
        FloatOutsideFixedStep { config, reachable: Reachable::default(), exempt: Vec::new() }
    }

    /// Computes the reachability scoping and the exempt bodies once the
    /// crate's bodies are known; nothing when no roots are configured.
    pub fn check_crate(&mut self, bodies: &Vec<FnBody>)
        ensures
            final(self).config == old(self).config,
            old(self).config.tick_reachable_roots@.len() == 0 ==> *final(self) == *old(self),
            old(self).config.tick_reachable_roots@.len() > 0 ==> {
                &&& final(self).reachable.reached is Some
                &&& final(self).exempt@.len() == bodies@.len()
                &&& forall|i: int|
                    0 <= i < bodies@.len() ==> (#[trigger] final(self).exempt@[i] <==> texts(
                        old(self).config.fixed_step_functions@,
                    ).contains(bodies@[i].path@))
                &&& forall|v: usize|
                    #![trigger includes_spec(final(self).reachable, v)]
                    (v as int) < bodies@.len() ==> (includes_spec(final(self).reachable, v) <==> reachable(
                        call_graph(bodies@),
                        named_positions(bodies@, texts(old(self).config.tick_reachable_roots@), bodies@.len() as int),
                        v,
                    ))
                &&& forall|v: usize|
                    #![trigger includes_spec(final(self).reachable, v)]
                    (v as int) >= bodies@.len() ==> !includes_spec(final(self).reachable, v)
            },
    {
        if self.config.tick_reachable_roots.len() == 0 {
            return;
        }
        self.reachable = Reachable::compute(bodies, &self.config);
        self.exempt = resolve_named_functions(bodies, &self.config.fixed_step_functions);
    }

    /// The report on a binary or compound-assignment expression.
    pub fn check_expr(&self, site: &ArithSite) -> (r: Option<LintMessage>)
        ensures
            reported(
                r,
                float_fires(*self, *site),
                "non-associative float arithmetic reachable from simulation state"@,
                "confirm this runs under a fixed-step/fixed-point discipline, or list the enclosing function in dylint.toml's fixed_step_functions"@,
            ),
    {
        if self.config.tick_reachable_roots.len() == 0 {
            return None;
        }
        if site.op == BinOp::Other || !site.lhs_is_float {
            return None;
        }
        if !site.is_compound_assign {
            match &site.parent {
                Some(p) => {
                    if p.op != BinOp::Other && p.lhs_is_float {
                        return None;
                    }
                },
                None => {},
            }
        }
        if site.owner < self.exempt.len() && self.exempt[site.owner] {
            return None;
        }
        if !self.reachable.includes(site.owner) {
            return None;
        }
        Some(
            lint_message(
                "non-associative float arithmetic reachable from simulation state",
                "confirm this runs under a fixed-step/fixed-point discipline, or list the enclosing function in dylint.toml's fixed_step_functions",
            ),
        )
    }
}


// ---- Laws ----------------------------------------------------------------------------

proof fn lemma_named_position(bodies: Seq<FnBody>, names: Seq<Seq<char>>, k: int, i: int)
    requires
        0 <= i < k <= bodies.len(),
        names.contains(bodies[i].path@),
    ensures
        named_positions(bodies, names, k).contains(i as usize),
    decreases k,
{
    let prev = named_positions(bodies, names, k - 1);
    if i < k - 1 {
        lemma_named_position(bodies, names, k - 1, i);
        let j = choose|j: int| 0 <= j < prev.len() && prev[j] == i as usize;
        assert(named_positions(bodies, names, k)[j] == i as usize);
    } else {
        assert(named_positions(bodies, names, k)[prev.len() as int] == i as usize);
    }
}

/// Every body named in `tick_reachable_roots` is reachable, so the scoped
/// rules fire in it.
pub proof fn law_configured_roots_reachable(bodies: Seq<FnBody>, names: Seq<Seq<char>>, i: int)
    requires
        0 <= i < bodies.len(),
        names.contains(bodies[i].path@),
    ensures
        reachable(call_graph(bodies), named_positions(bodies, names, bodies.len() as int), i as usize),
{
    let roots = named_positions(bodies, names, bodies.len() as int);
    lemma_named_position(bodies, names, bodies.len() as int, i);
    let j = choose|j: int| 0 <= j < roots.len() && roots[j] == i as usize;
    crate::reach::lemma_root_reachable(call_graph(bodies), roots, j);
}

/// Without configured roots every scoped rule fires everywhere.
pub proof fn law_unscoped_includes_everything(r: Reachable, id: usize)
    requires
        r.reached is None,
    ensures
        includes_spec(r, id),
{
}

/// `drift::float_outside_fixed_step` is opt-in: it never fires without
/// configured roots.
pub proof fn law_float_opt_in(pass: FloatOutsideFixedStep, site: ArithSite)
    requires
        pass.config.tick_reachable_roots@.len() == 0,
    ensures
        !float_fires(pass, site),
{
}

/// A float chain `a + b + c` draws one report: its inner links never fire.
pub proof fn law_float_chain_inner_silent(pass: FloatOutsideFixedStep, site: ArithSite)
    requires
        inside_float_chain(site),
    ensures
        !float_fires(pass, site),
{
}

/// A function listed in `fixed_step_functions` draws no float report.
pub proof fn law_fixed_step_exempt(pass: FloatOutsideFixedStep, site: ArithSite)
    requires
        exempt_spec(pass.exempt@, site.owner),
    ensures
        !float_fires(pass, site),
{
}

/// Iterating a hash container whose collected result is sorted right after
/// draws no `drift::hashmap_iter` report.
pub proof fn law_collect_then_sort_silent(reachable: Reachable, site: MethodCallSite)
    requires
        sorted_right_after(site),
    ensures
        !hashmap_iter_fires(reachable, site),
{
}


/// Once roots are configured, every rule but `drift::usize_in_hashed_state`
/// fires only inside included functions (those reachable from a root).
pub proof fn law_scoped_rules_fire_in_included_functions(
    reachable: Reachable,
    site: MethodCallSite,
    def_path: Seq<char>,
    method: Seq<char>,
    resolved: Option<Seq<char>>,
    owner: usize,
)
    ensures
        hashmap_iter_fires(reachable, site) ==> includes_spec(reachable, site.owner),
        unseeded_rng_fires(reachable, def_path, owner) ==> includes_spec(reachable, owner),
        wallclock_read_fires(reachable, def_path, owner) ==> includes_spec(reachable, owner),
        unordered_parallelism_fires(reachable, method, resolved, owner) ==> includes_spec(reachable, owner),
{
}

/// Whether the float rule fires inside the body at `owner` is likewise
/// bounded by reachability.
pub proof fn law_float_fires_in_included_functions(pass: FloatOutsideFixedStep, site: ArithSite)
    ensures
        float_fires(pass, site) ==> includes_spec(pass.reachable, site.owner),
{
}

/// With roots configured, float `+`, `-`, `*`, `/` and `%` (and their
/// compound assignments) whose left operand is a float are reported in a
/// reachable function not listed as fixed-step, unless the expression sits
/// directly under another float `+ - * / %` (the chain is reported once, at
/// its outermost operator).
pub proof fn law_float_arithmetic_reported(pass: FloatOutsideFixedStep, site: ArithSite, r: Option<LintMessage>)
    requires
        reported(
            r,
            float_fires(pass, site),
            "non-associative float arithmetic reachable from simulation state"@,
            "confirm this runs under a fixed-step/fixed-point discipline, or list the enclosing function in dylint.toml's fixed_step_functions"@,
        ),
        pass.config.tick_reachable_roots@.len() > 0,
        site.op == BinOp::Add || site.op == BinOp::Sub || site.op == BinOp::Mul || site.op == BinOp::Div
            || site.op == BinOp::Rem,
        site.lhs_is_float,
        site.is_compound_assign || match site.parent {
            Some(p) => !p.lhs_is_float || !(p.op == BinOp::Add || p.op == BinOp::Sub || p.op == BinOp::Mul
                || p.op == BinOp::Div || p.op == BinOp::Rem),
            None => true,
        },
        !exempt_spec(pass.exempt@, site.owner),
        includes_spec(pass.reachable, site.owner),
    ensures
        r is Some,
        r->0.message@ == "non-associative float arithmetic reachable from simulation state"@,
{
}

/// An expression directly under a float `+`, `-`, `*`, `/` or `%` is an
/// inner link of that chain and draws no report of its own.
pub proof fn law_float_chain_link_unreported(pass: FloatOutsideFixedStep, site: ArithSite, r: Option<LintMessage>)
    requires
        reported(
            r,
            float_fires(pass, site),
            "non-associative float arithmetic reachable from simulation state"@,
            "confirm this runs under a fixed-step/fixed-point discipline, or list the enclosing function in dylint.toml's fixed_step_functions"@,
        ),
        !site.is_compound_assign,
        site.parent matches Some(p) && p.lhs_is_float && (p.op == BinOp::Add || p.op == BinOp::Sub
            || p.op == BinOp::Mul || p.op == BinOp::Div || p.op == BinOp::Rem),
    ensures
        r is None,
{
}

/// Each of rayon's entry points `par_iter`, `par_iter_mut`,
/// `into_par_iter` and `par_bridge`, resolved to a definition under
/// `rayon::`, is reported inside an included function.
pub proof fn law_rayon_entry_points_reported(
    reachable: Reachable,
    method: Seq<char>,
    def_path: Seq<char>,
    owner: usize,
    r: Option<LintMessage>,
)
    requires
        reported(
            r,
            unordered_parallelism_fires(reachable, method, Some(def_path), owner),
            "rayon parallel iteration \u{2014} result order is scheduler-dependent"@,
            "confirm the terminal reduction is order-independent (commutative), or suppress if already confirmed"@,
        ),
        method == "par_iter"@ || method == "par_iter_mut"@ || method == "into_par_iter"@ || method == "par_bridge"@,
        has_prefix(def_path, "rayon::"@),
        includes_spec(reachable, owner),
    ensures
        r is Some,
        r->0.message@ == "rayon parallel iteration \u{2014} result order is scheduler-dependent"@,
{
    assert(parallel_methods()[0] == "par_iter"@);
    assert(parallel_methods()[1] == "par_iter_mut"@);
    assert(parallel_methods()[2] == "into_par_iter"@);
    assert(parallel_methods()[3] == "par_bridge"@);
}

} // verus!
