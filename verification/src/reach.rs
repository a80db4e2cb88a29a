use vstd::prelude::*;
use vstd::set_lib::*;

verus! {

/// The successor lists of a call graph whose nodes are `0..edges.len()`.
pub open spec fn graph_view(edges: Seq<Vec<usize>>) -> Seq<Seq<usize>> {
    edges.map_values(|e: Vec<usize>| e@)
}

/// Every edge of `g` points at a node of `g`.
pub open spec fn well_formed_graph(g: Seq<Seq<usize>>) -> bool {
    forall|a: int, k: int|
        #![trigger g[a][k]]
        0 <= a < g.len() && 0 <= k < g[a].len() ==> (g[a][k] as int) < g.len()
}

/// Every root names a node of a graph with `n` nodes.
pub open spec fn roots_in_range(roots: Seq<usize>, n: int) -> bool {
    forall|i: int| 0 <= i < roots.len() ==> (#[trigger] roots[i] as int) < n
}

/// `s` holds every callee of every function it holds.
pub open spec fn closed_under_calls(g: Seq<Seq<usize>>, s: Set<usize>) -> bool {
    forall|a: usize, k: int|
        #![trigger s.contains(a), g[a as int][k]]
        s.contains(a) && (a as int) < g.len() && 0 <= k < g[a as int].len() ==> s.contains(
            g[a as int][k],
        )
}

/// `s` holds every root.
pub open spec fn holds_roots(roots: Seq<usize>, s: Set<usize>) -> bool {
    forall|i: int| 0 <= i < roots.len() ==> s.contains(#[trigger] roots[i])
}

/// `v` is reachable from `roots`: it lies in every set that holds the roots
/// and is closed under calls (the least such set is the reachable set).
pub open spec fn reachable(g: Seq<Seq<usize>>, roots: Seq<usize>, v: usize) -> bool {
    forall|s: Set<usize>|
        #![trigger s.contains(v)]
        closed_under_calls(g, s) && holds_roots(roots, s) ==> s.contains(v)
}

/// The nodes set to `true` in a membership vector.
pub open spec fn marked(v: Seq<bool>) -> Set<usize> {
    Set::new(|x: usize| (x as int) < v.len() && v[x as int])
}

/// A derivation of the nodes in `order`: each is a root, or a callee of a
/// node listed before it (`why[k]` is that node's position).
spec fn derivation(g: Seq<Seq<usize>>, roots: Seq<usize>, order: Seq<usize>, why: Seq<int>) -> bool {
    &&& why.len() == order.len()
    &&& forall|k: int|
        #![trigger why[k]]
        0 <= k < order.len() ==> {
            ||| (why[k] == -1 && roots.contains(order[k]))
            ||| (0 <= why[k] < k && (order[why[k]] as int) < g.len() && g[order[why[k]] as int].contains(
                order[k],
            ))
        }
}

proof fn lemma_derived_in_every_closed_set(
    g: Seq<Seq<usize>>,
    roots: Seq<usize>,
    order: Seq<usize>,
    why: Seq<int>,
    s: Set<usize>,
)
    requires
        derivation(g, roots, order, why),
        closed_under_calls(g, s),
        holds_roots(roots, s),
    ensures
        forall|k: int| 0 <= k < order.len() ==> s.contains(#[trigger] order[k]),
    decreases order.len(),
{
    if order.len() > 0 {
        let last = order.len() - 1;
        let o2 = order.drop_last();
        let w2 = why.drop_last();
        assert(derivation(g, roots, o2, w2)) by {
            assert forall|k: int| #![trigger w2[k]] 0 <= k < o2.len() implies {
                ||| (w2[k] == -1 && roots.contains(o2[k]))
                ||| (0 <= w2[k] < k && (o2[w2[k]] as int) < g.len() && g[o2[w2[k]] as int].contains(
                    o2[k],
                ))
            } by {
                assert(why[k] == w2[k]);
            }
        }
        lemma_derived_in_every_closed_set(g, roots, o2, w2, s);
        assert forall|k: int| 0 <= k < order.len() implies s.contains(#[trigger] order[k]) by {
            if k < last {
                assert(order[k] == o2[k]);
            } else {
                if why[k] == -1 {
                    let i = choose|i: int| 0 <= i < roots.len() && roots[i] == order[k];
                    assert(s.contains(roots[i]));
                } else {
                    let j = why[k];
                    let a = order[j];
                    assert(order[j] == o2[j]);
                    assert(s.contains(a));
                    let m = choose|m: int| 0 <= m < g[a as int].len() && g[a as int][m] == order[k];
                    assert(s.contains(g[a as int][m]));
                }
            }
        }
    }
}

proof fn lemma_distinct_bounded(s: Seq<usize>, n: usize)
    requires
        s.no_duplicates(),
        forall|k: int| 0 <= k < s.len() ==> (#[trigger] s[k] as int) < n,
    ensures
        s.len() <= n,
{
    let t = s.map_values(|x: usize| x as int);
    s.lemma_no_duplicates_injective(|x: usize| x as int);
    t.unique_seq_to_set();
    lemma_int_range(0, n as int);
    assert(t.to_set().subset_of(set_int_range(0, n as int))) by {
        assert forall|x: int| t.to_set().contains(x) implies set_int_range(0, n as int).contains(
            x,
        ) by {
            let k = choose|k: int| 0 <= k < t.len() && t[k] == x;
            assert(t[k] == s[k] as int);
        }
    }
    lemma_len_subset(t.to_set(), set_int_range(0, n as int));
}

/// The functions reachable from `roots` in the call graph `edges`
/// (`edges[a]` lists the callees of `a`), as a membership vector.
pub fn reachable_set(edges: &Vec<Vec<usize>>, roots: &Vec<usize>) -> (reached: Vec<bool>)
    requires
        well_formed_graph(graph_view(edges@)),
        roots_in_range(roots@, edges@.len() as int),
    ensures
        reached@.len() == edges@.len(),
        forall|v: usize|
            (v as int) < edges@.len() ==> (#[trigger] reached@[v as int] <==> reachable(
                graph_view(edges@),
                roots@,
                v,
            )),
{
    let ghost g = graph_view(edges@);
    let n = edges.len();
    let mut reached: Vec<bool> = Vec::new();
    let mut i: usize = 0;
    while i < n
        invariant
            i <= n,
            reached@.len() == i,
            forall|j: int| 0 <= j < i ==> !#[trigger] reached@[j],
        decreases n - i,
    {
        reached.push(false);
        i = i + 1;
    }
    let mut stack: Vec<usize> = Vec::new();
    let ghost mut order: Seq<usize> = Seq::empty();
    let ghost mut why: Seq<int> = Seq::empty();
    let mut ri: usize = 0;
    while ri < roots.len()
        invariant
            n == edges@.len(),
            g == graph_view(edges@),
            roots_in_range(roots@, n as int),
            ri <= roots@.len(),
            reached@.len() == n,
            forall|v: usize| (v as int) < n ==> (#[trigger] reached@[v as int] <==> order.contains(v)),
            order.no_duplicates(),
            forall|k: int| 0 <= k < order.len() ==> (#[trigger] order[k] as int) < n,
            derivation(g, roots@, order, why),
            stack@ == order,
            forall|j: int| 0 <= j < ri ==> #[trigger] reached@[roots@[j] as int],
        decreases roots.len() - ri,
    {
        let r = roots[ri];
        if !reached[r] {
            let ghost old_reached = reached@;
            let ghost old_order = order;
            reached.set(r, true);
            stack.push(r);
            proof {
                assert(roots@.contains(r)) by {
                    assert(roots@[ri as int] == r);
                }
                why = why.push(-1);
                order = order.push(r);
                assert(derivation(g, roots@, order, why)) by {
                    assert forall|k: int| #![trigger why[k]] 0 <= k < order.len() implies {
                        ||| (why[k] == -1 && roots@.contains(order[k]))
                        ||| (0 <= why[k] < k && (order[why[k]] as int) < g.len()
                            && g[order[why[k]] as int].contains(order[k]))
                    } by {
                        if k < order.len() - 1 {
                            assert(order[k] == order.drop_last()[k]);
                        }
                    }
                }
                assert forall|v: usize| (v as int) < n implies (#[trigger] reached@[v as int]
                    <==> order.contains(v)) by {
                    if v == r {
                        assert(order[order.len() - 1] == r);
                    } else {
                        assert(reached@[v as int] == old_reached[v as int]);
                        if order.contains(v) {
                            let k = choose|k: int| 0 <= k < order.len() && order[k] == v;
                            assert(old_order[k] == v);
                        }
                        if old_order.contains(v) {
                            let k = choose|k: int| 0 <= k < old_order.len() && old_order[k] == v;
                            assert(order[k] == v);
                        }
                    }
                }
            }
        }
        ri = ri + 1;
    }
    proof {
        lemma_distinct_bounded(order, n);
    }
    while stack.len() > 0
        invariant
            n == edges@.len(),
            g == graph_view(edges@),
            well_formed_graph(g),
            roots_in_range(roots@, n as int),
            reached@.len() == n,
            forall|v: usize| (v as int) < n ==> (#[trigger] reached@[v as int] <==> order.contains(v)),
            order.no_duplicates(),
            order.len() <= n,
            forall|k: int| 0 <= k < order.len() ==> (#[trigger] order[k] as int) < n,
            derivation(g, roots@, order, why),
            stack@.no_duplicates(),
            forall|k: int| 0 <= k < stack@.len() ==> #[trigger] order.contains(stack@[k]),
            forall|j: int| 0 <= j < roots@.len() ==> #[trigger] reached@[roots@[j] as int],
            forall|a: usize, k: int|
                #![trigger reached@[a as int], g[a as int][k]]
                (a as int) < n && reached@[a as int] && !stack@.contains(a) && 0 <= k < g[a as int].len()
                    ==> reached@[g[a as int][k] as int],
        decreases 2 * (n - order.len()) + stack.len(),
    {
        let ghost stack_before = stack@;
        let a = stack.pop().unwrap();
        let ghost stack_after_pop = stack@;
        proof {
            assert(order.contains(a)) by {
                assert(stack_after_pop.push(a)[stack_after_pop.len() as int] == a);
            }
            assert(!stack@.contains(a)) by {
                let old_stack = stack_after_pop.push(a);
                if stack@.contains(a) {
                    let k = choose|k: int| 0 <= k < stack@.len() && stack@[k] == a;
                    assert(old_stack[k] == old_stack[old_stack.len() - 1]);
                }
            }
        }
        let ghost ia: int = choose|ia: int| 0 <= ia < order.len() && order[ia] == a;
        let ghost m0: int = 2 * (n - order.len()) + stack@.len();
        proof {
            assert(stack_before == stack_after_pop.push(a));
            assert forall|c: usize, kk: int|
                #![trigger reached@[c as int], g[c as int][kk]]
                (c as int) < n && c != a && reached@[c as int] && !stack@.contains(c) && 0 <= kk < g[c as int].len()
                    implies reached@[g[c as int][kk] as int] by {
                assert(!stack_before.contains(c)) by {
                    if stack_before.contains(c) {
                        let j = choose|j: int| 0 <= j < stack_before.len() && stack_before[j] == c;
                        assert(stack@[j] == c);
                    }
                }
            }
        }
        let succ = &edges[a];
        proof {
            assert(succ@ == g[a as int]);
        }
        let mut k: usize = 0;
        while k < succ.len()
            invariant
                n == edges@.len(),
                g == graph_view(edges@),
                well_formed_graph(g),
                (a as int) < n,
                roots_in_range(roots@, n as int),
                succ@ == g[a as int],
                k <= succ@.len(),
                reached@.len() == n,
                0 <= ia < order.len(),
                order[ia] == a,
                forall|v: usize| (v as int) < n ==> (#[trigger] reached@[v as int] <==> order.contains(v)),
                order.no_duplicates(),
                order.len() <= n,
                forall|kk: int| 0 <= kk < order.len() ==> (#[trigger] order[kk] as int) < n,
                derivation(g, roots@, order, why),
                stack@.no_duplicates(),
                !stack@.contains(a),
                forall|kk: int| 0 <= kk < stack@.len() ==> #[trigger] order.contains(stack@[kk]),
                forall|j: int| 0 <= j < roots@.len() ==> #[trigger] reached@[roots@[j] as int],
                forall|j: int| 0 <= j < k ==> #[trigger] reached@[g[a as int][j] as int],
                forall|c: usize, kk: int|
                    #![trigger reached@[c as int], g[c as int][kk]]
                    (c as int) < n && c != a && reached@[c as int] && !stack@.contains(c) && 0 <= kk < g[c as int].len()
                        ==> reached@[g[c as int][kk] as int],
                2 * (n - order.len()) + stack@.len() <= m0,
            decreases succ.len() - k,
        {
            let b = succ[k];
            proof {
                assert(g[a as int][k as int] == b);
            }
            if !reached[b] {
                let ghost old_reached = reached@;
                let ghost old_stack = stack@;
                proof {
                    assert(!order.contains(b));
                    let no = order.push(b);
                    assert(no.no_duplicates()) by {
                        assert forall|x: int, y: int| 0 <= x < no.len() && 0 <= y < no.len() && x != y implies no[x] != no[y] by {
                            if x < order.len() && y < order.len() {
                                assert(no[x] == order[x] && no[y] == order[y]);
                            } else if x < order.len() {
                                assert(no[x] == order[x]);
                            } else if y < order.len() {
                                assert(no[y] == order[y]);
                            }
                        }
                    }
                    assert forall|kk: int| 0 <= kk < no.len() implies (#[trigger] no[kk] as int) < n by {
                        if kk < order.len() {
                            assert(no[kk] == order[kk]);
                        }
                    }
                    lemma_distinct_bounded(no, n);
                }
                reached.set(b, true);
                stack.push(b);
                proof {
                    let old_order = order;
                    assert(g[order[ia] as int].contains(b)) by {
                        assert(g[a as int][k as int] == b);
                    }
                    why = why.push(ia);
                    order = order.push(b);
                    assert(derivation(g, roots@, order, why)) by {
                        assert forall|kk: int| #![trigger why[kk]] 0 <= kk < order.len() implies {
                            ||| (why[kk] == -1 && roots@.contains(order[kk]))
                            ||| (0 <= why[kk] < kk && (order[why[kk]] as int) < g.len()
                                && g[order[why[kk]] as int].contains(order[kk]))
                        } by {
                            if kk < old_order.len() {
                                assert(order[kk] == old_order[kk]);
                                if why[kk] != -1 {
                                    assert(order[why[kk]] == old_order[why[kk]]);
                                }
                            } else {
                                assert(order[ia] == old_order[ia]);
                            }
                        }
                    }
                    assert forall|v: usize| (v as int) < n implies (#[trigger] reached@[v as int]
                        <==> order.contains(v)) by {
                        if v == b {
                            assert(order[order.len() - 1] == b);
                        } else {
                            if order.contains(v) {
                                let kk = choose|kk: int| 0 <= kk < order.len() && order[kk] == v;
                                assert(old_order[kk] == v);
                            }
                            if old_order.contains(v) {
                                let kk = choose|kk: int| 0 <= kk < old_order.len() && old_order[kk] == v;
                                assert(order[kk] == v);
                            }
                        }
                    }
                    assert forall|kk: int| 0 <= kk < stack@.len() implies #[trigger] order.contains(stack@[kk]) by {
                        if kk < stack@.len() - 1 {
                            let x = stack@[kk];
                            assert(old_order.contains(x));
                            let j = choose|j: int| 0 <= j < old_order.len() && old_order[j] == x;
                            assert(order[j] == x);
                        } else {
                            assert(order[order.len() - 1] == b);
                        }
                    }
                    assert(stack@.no_duplicates()) by {
                        let s0 = stack@.drop_last();
                        assert forall|x: int, y: int| 0 <= x < stack@.len() && 0 <= y < stack@.len() && x != y implies stack@[x] != stack@[y] by {
                            if x == stack@.len() - 1 && y < stack@.len() - 1 {
                                assert(old_order.contains(stack@[y]));
                            }
                            if y == stack@.len() - 1 && x < stack@.len() - 1 {
                                assert(old_order.contains(stack@[x]));
                            }
                        }
                    }
                    assert(!stack@.contains(a)) by {
                        if stack@.contains(a) {
                            let j = choose|j: int| 0 <= j < stack@.len() && stack@[j] == a;
                            if j < stack@.len() - 1 {
                                assert(old_stack[j] == a);
                            }
                        }
                    }
                    assert forall|c: usize, kk: int|
                        #![trigger reached@[c as int], g[c as int][kk]]
                        (c as int) < n && c != a && reached@[c as int] && !stack@.contains(c) && 0 <= kk < g[c as int].len()
                            implies reached@[g[c as int][kk] as int] by {
                        assert(c != b) by {
                            if c == b {
                                assert(stack@[stack@.len() - 1] == b);
                            }
                        }
                        assert(old_reached[c as int]);
                        assert(!old_stack.contains(c)) by {
                            if old_stack.contains(c) {
                                let j = choose|j: int| 0 <= j < old_stack.len() && old_stack[j] == c;
                                assert(stack@[j] == c);
                            }
                        }
                        assert(old_reached[g[c as int][kk] as int]);
                    }
                    assert forall|j: int| 0 <= j < roots@.len() implies #[trigger] reached@[roots@[j] as int] by {
                        assert(old_reached[roots@[j] as int]);
                    }
                    assert forall|j: int| 0 <= j < k implies #[trigger] reached@[g[a as int][j] as int] by {
                        assert(old_reached[g[a as int][j] as int]);
                    }
                }
            }
            k = k + 1;
        }
        proof {
            assert forall|c: usize, kk: int|
                #![trigger reached@[c as int], g[c as int][kk]]
                (c as int) < n && reached@[c as int] && !stack@.contains(c) && 0 <= kk < g[c as int].len()
                    implies reached@[g[c as int][kk] as int] by {
                if c == a {
                    assert(reached@[g[a as int][kk] as int]);
                }
            }
        }
    }
    proof {
        let r = marked(reached@);
        assert(closed_under_calls(g, r));
        assert(holds_roots(roots@, r));
        assert forall|v: usize| (v as int) < edges@.len() implies (#[trigger] reached@[v as int] <==> reachable(g, roots@, v)) by {
            if reached@[v as int] {
                assert(order.contains(v));
                let kv = choose|kv: int| 0 <= kv < order.len() && order[kv] == v;
                assert forall|s: Set<usize>| closed_under_calls(g, s) && holds_roots(roots@, s) implies s.contains(v) by {
                    lemma_derived_in_every_closed_set(g, roots@, order, why, s);
                    assert(s.contains(order[kv]));
                }
            }
            if reachable(g, roots@, v) {
                assert(r.contains(v));
            }
        }
    }
    reached
}


/// The texts of a list of strings.
pub open spec fn texts(v: Seq<String>) -> Seq<Seq<char>> {
    v.map_values(|s: String| s@)
}

/// The texts of a list of (caller, callee) name pairs.
pub open spec fn pairs_view(edges: Seq<(String, String)>) -> Seq<(Seq<char>, Seq<char>)> {
    edges.map_values(|e: (String, String)| (e.0@, e.1@))
}

/// `s` holds the callee of every call edge whose caller it holds.
pub open spec fn names_closed(edges: Seq<(Seq<char>, Seq<char>)>, s: Set<Seq<char>>) -> bool {
    forall|k: int| 0 <= k < edges.len() && #[trigger] s.contains(edges[k].0) ==> s.contains(edges[k].1)
}

/// `s` holds every root name.
pub open spec fn holds_names(roots: Seq<Seq<char>>, s: Set<Seq<char>>) -> bool {
    forall|i: int| 0 <= i < roots.len() ==> s.contains(#[trigger] roots[i])
}

/// The name `v` is reachable from the root names over the call edges: it lies
/// in every set of names that holds the roots and is closed under the edges.
pub open spec fn name_reachable(edges: Seq<(Seq<char>, Seq<char>)>, roots: Seq<Seq<char>>, v: Seq<char>) -> bool {
    forall|s: Set<Seq<char>>|
        #![trigger s.contains(v)]
        names_closed(edges, s) && holds_names(roots, s) ==> s.contains(v)
}

/// Some call edge runs from node `c` to node `x`.
spec fn has_pair(pidx: Seq<(usize, usize)>, c: int, x: usize) -> bool {
    exists|j: int| 0 <= j < pidx.len() && #[trigger] pidx[j] == (c as usize, x)
}

/// Entry `m` of `out` names a reached node below `c`.
spec fn picked(out: Seq<String>, names: Seq<String>, reached: Seq<bool>, c: int, m: int) -> bool {
    exists|v: int| 0 <= v < c && reached[v] && out[m]@ == #[trigger] names[v]@
}

/// Position of `x` among `names`, if it is there.
pub fn index_of(names: &Vec<String>, x: &String) -> (r: Option<usize>)
    ensures
        match r {
            Some(i) => (i as int) < names@.len() && names@[i as int]@ == x@,
            None => forall|i: int| 0 <= i < names@.len() ==> (#[trigger] names@[i])@ != x@,
        },
{
    let mut i: usize = 0;
    while i < names.len()
        invariant
            i <= names@.len(),
            forall|j: int| 0 <= j < i ==> (#[trigger] names@[j])@ != x@,
        decreases names.len() - i,
    {
        if names[i] == *x {
            return Some(i);
        }
        i = i + 1;
    }
    None
}

/// What a lookup by `index_of` finding something, or not, says of the texts.
pub proof fn lemma_index_found(names: Seq<String>, x: Seq<char>, found: bool)
    requires
        found ==> exists|i: int| 0 <= i < names.len() && (#[trigger] names[i])@ == x,
        !found ==> forall|i: int| 0 <= i < names.len() ==> (#[trigger] names[i])@ != x,
    ensures
        found == texts(names).contains(x),
{
    if found {
        let i = choose|i: int| 0 <= i < names.len() && (#[trigger] names[i])@ == x;
        assert(texts(names)[i] == x);
    } else if texts(names).contains(x) {
        let j = choose|j: int| 0 <= j < texts(names).len() && texts(names)[j] == x;
        assert(names[j]@ == x);
    }
}

/// Whether `(a, b)` is one of the pairs.
pub fn pair_listed(fields: &Vec<(String, String)>, a: &String, b: &String) -> (r: bool)
    ensures
        r == pairs_view(fields@).contains((a@, b@)),
{
    let mut i: usize = 0;
    while i < fields.len()
        invariant
            i <= fields@.len(),
            forall|j: int| 0 <= j < i ==> pairs_view(fields@)[j] != (a@, b@),
        decreases fields.len() - i,
    {
        if fields[i].0 == *a && fields[i].1 == *b {
            assert(pairs_view(fields@)[i as int] == (a@, b@));
            return true;
        }
        i = i + 1;
    }
    false
}

/// Adds to the distinct pairs `out` each pair of `src` not listed yet.
pub fn push_distinct_pairs(out: &mut Vec<(String, String)>, src: &Vec<(String, String)>)
    requires
        pairs_view(old(out)@).no_duplicates(),
    ensures
        pairs_view(final(out)@).no_duplicates(),
        forall|p: (Seq<char>, Seq<char>)|
            #![trigger pairs_view(final(out)@).contains(p)]
            pairs_view(final(out)@).contains(p) <==> (pairs_view(old(out)@).contains(p) || pairs_view(src@).contains(p)),
{
    let mut i: usize = 0;
    while i < src.len()
        invariant
            i <= src@.len(),
            pairs_view(out@).no_duplicates(),
            forall|p: (Seq<char>, Seq<char>)|
                #![trigger pairs_view(out@).contains(p)]
                pairs_view(out@).contains(p) <==> (pairs_view(old(out)@).contains(p) || pairs_view(src@).take(
                    i as int,
                ).contains(p)),
        decreases src.len() - i,
    {
        let ghost b = pairs_view(out@);
        let ghost q = pairs_view(src@)[i as int];
        proof {
            assert(pairs_view(src@).take(i + 1) =~= pairs_view(src@).take(i as int).push(q));
        }
        let listed = pair_listed(out, &src[i].0, &src[i].1);
        if !listed {
            out.push((src[i].0.clone(), src[i].1.clone()));
            proof {
                assert(pairs_view(out@) =~= b.push(q));
                assert forall|a: int, c: int| 0 <= a < c < pairs_view(out@).len() implies pairs_view(out@)[a]
                    != pairs_view(out@)[c] by {
                    if c == b.len() {
                        assert(pairs_view(out@)[a] == b[a]);
                    } else {
                        assert(pairs_view(out@)[a] == b[a]);
                        assert(pairs_view(out@)[c] == b[c]);
                    }
                }
            }
        }
        proof {
            assert forall|p: (Seq<char>, Seq<char>)| #[trigger] pairs_view(out@).contains(p) <==> (b.contains(p) || p == q) by {
                if !listed {
                    if pairs_view(out@).contains(p) {
                        let j = choose|j: int| 0 <= j < pairs_view(out@).len() && pairs_view(out@)[j] == p;
                        if j < b.len() {
                            assert(b[j] == p);
                        }
                    }
                    if b.contains(p) {
                        let j = choose|j: int| 0 <= j < b.len() && b[j] == p;
                        assert(pairs_view(out@)[j] == p);
                    }
                    if p == q {
                        assert(pairs_view(out@)[b.len() as int] == q);
                    }
                }
            }
            assert forall|p: (Seq<char>, Seq<char>)| #[trigger] pairs_view(out@).contains(p) <==> (pairs_view(
                old(out)@,
            ).contains(p) || pairs_view(src@).take(i + 1).contains(p)) by {
                let t0 = pairs_view(src@).take(i as int);
                let t1 = pairs_view(src@).take(i + 1);
                assert(b.contains(p) <==> (pairs_view(old(out)@).contains(p) || t0.contains(p)));
                if t1.contains(p) && !t0.contains(p) {
                    let j = choose|j: int| 0 <= j < t1.len() && t1[j] == p;
                    if j < i {
                        assert(t0[j] == p);
                    }
                }
                if t0.contains(p) {
                    let j = choose|j: int| 0 <= j < t0.len() && t0[j] == p;
                    assert(t1[j] == p);
                }
                if p == q {
                    assert(t1[i as int] == p);
                }
            }
        }
        i = i + 1;
    }
    assert(pairs_view(src@).take(src@.len() as int) =~= pairs_view(src@));
}

/// Adds `x` to the distinct list `names` unless it is already there, and
/// returns its position.
pub fn intern(names: &mut Vec<String>, x: &String) -> (i: usize)
    requires
        texts(old(names)@).no_duplicates(),
    ensures
        texts(final(names)@).no_duplicates(),
        (i as int) < final(names)@.len(),
        final(names)@[i as int]@ == x@,
        old(names)@.len() <= final(names)@.len() <= old(names)@.len() + 1,
        forall|j: int| 0 <= j < old(names)@.len() ==> #[trigger] final(names)@[j] == old(names)@[j],
        final(names)@.len() == old(names)@.len() + 1 ==> (i as int) == old(names)@.len(),
{
    match index_of(names, x) {
        Some(i) => i,
        None => {
            let ghost before = names@;
            names.push(x.clone());
            proof {
                assert forall|a: int, b: int|
                    0 <= a < texts(names@).len() && 0 <= b < texts(names@).len() && a != b implies
                    texts(names@)[a] != texts(names@)[b] by {
                    if a < before.len() && b < before.len() {
                        assert(texts(before)[a] == texts(names@)[a]);
                        assert(texts(before)[b] == texts(names@)[b]);
                    } else if a < before.len() {
                        assert(before[a]@ != x@);
                    } else {
                        assert(before[b]@ != x@);
                    }
                }
            }
            names.len() - 1
        },
    }
}

/// Reachability is closed under calls: every callee of a reachable function
/// is reachable.
pub proof fn lemma_reachable_closed(g: Seq<Seq<usize>>, roots: Seq<usize>, a: usize, k: int)
    requires
        reachable(g, roots, a),
        (a as int) < g.len(),
        0 <= k < g[a as int].len(),
    ensures
        reachable(g, roots, g[a as int][k]),
{
    let b = g[a as int][k];
    assert forall|s: Set<usize>| #![trigger s.contains(b)] closed_under_calls(g, s) && holds_roots(roots, s) implies s.contains(b) by {
        assert(s.contains(a));
    }
}

/// Every root is reachable.
pub proof fn lemma_root_reachable(g: Seq<Seq<usize>>, roots: Seq<usize>, i: int)
    requires
        0 <= i < roots.len(),
    ensures
        reachable(g, roots, roots[i]),
{
    let r = roots[i];
    assert forall|s: Set<usize>| #![trigger s.contains(r)] closed_under_calls(g, s) && holds_roots(roots, s) implies s.contains(r) by {
    }
}

/// The names reachable from `roots` over the call edges `edges` (each a
/// caller/callee pair), each listed once. Roots and callees need not be
/// callers themselves.
pub fn reachable_names(edges: &Vec<(String, String)>, roots: &Vec<String>) -> (r: Vec<String>)
    ensures
        texts(r@).no_duplicates(),
        forall|x: Seq<char>|
            #![trigger texts(r@).contains(x)]
            texts(r@).contains(x) <==> name_reachable(pairs_view(edges@), texts(roots@), x),
{
    let ghost e = pairs_view(edges@);
    let ghost rv = texts(roots@);
    let mut names: Vec<String> = Vec::new();
    let mut pidx: Vec<(usize, usize)> = Vec::new();
    let mut k: usize = 0;
    while k < edges.len()
        invariant
            e == pairs_view(edges@),
            k <= edges@.len(),
            texts(names@).no_duplicates(),
            pidx@.len() == k,
            forall|j: int|
                #![trigger pidx@[j]]
                0 <= j < k ==> (pidx@[j].0 as int) < names@.len() && (pidx@[j].1 as int) < names@.len()
                    && names@[pidx@[j].0 as int]@ == e[j].0 && names@[pidx@[j].1 as int]@ == e[j].1,
        decreases edges.len() - k,
    {
        let ghost n0 = names@;
        let a = intern(&mut names, &edges[k].0);
        let ghost n1 = names@;
        let b = intern(&mut names, &edges[k].1);
        pidx.push((a, b));
        proof {
            assert forall|j: int|
                #![trigger pidx@[j]]
                0 <= j < k + 1 implies (pidx@[j].0 as int) < names@.len() && (pidx@[j].1 as int) < names@.len()
                    && names@[pidx@[j].0 as int]@ == e[j].0 && names@[pidx@[j].1 as int]@ == e[j].1 by {
                if j < k {
                    assert(n1[pidx@[j].0 as int] == n0[pidx@[j].0 as int]);
                    assert(n1[pidx@[j].1 as int] == n0[pidx@[j].1 as int]);
                } else {
                    assert(names@[a as int] == n1[a as int]);
                }
            }
        }
        k = k + 1;
    }
    let mut ridx: Vec<usize> = Vec::new();
    let mut i: usize = 0;
    while i < roots.len()
        invariant
            e == pairs_view(edges@),
            rv == texts(roots@),
            i <= roots@.len(),
            texts(names@).no_duplicates(),
            pidx@.len() == edges@.len(),
            forall|j: int|
                #![trigger pidx@[j]]
                0 <= j < edges@.len() ==> (pidx@[j].0 as int) < names@.len() && (pidx@[j].1 as int) < names@.len()
                    && names@[pidx@[j].0 as int]@ == e[j].0 && names@[pidx@[j].1 as int]@ == e[j].1,
            ridx@.len() == i,
            forall|j: int| #![trigger ridx@[j]] 0 <= j < i ==> (ridx@[j] as int) < names@.len() && names@[ridx@[j] as int]@ == rv[j],
        decreases roots.len() - i,
    {
        let ghost n0 = names@;
        let x = intern(&mut names, &roots[i]);
        ridx.push(x);
        proof {
            assert forall|j: int|
                #![trigger pidx@[j]]
                0 <= j < edges@.len() implies (pidx@[j].0 as int) < names@.len() && (pidx@[j].1 as int) < names@.len()
                    && names@[pidx@[j].0 as int]@ == e[j].0 && names@[pidx@[j].1 as int]@ == e[j].1 by {
                assert(names@[pidx@[j].0 as int] == n0[pidx@[j].0 as int]);
                assert(names@[pidx@[j].1 as int] == n0[pidx@[j].1 as int]);
            }
            assert forall|j: int| #![trigger ridx@[j]] 0 <= j < i + 1 implies (ridx@[j] as int) < names@.len() && names@[ridx@[j] as int]@ == rv[j] by {
                if j < i {
                    assert(names@[ridx@[j] as int] == n0[ridx@[j] as int]);
                }
            }
        }
        i = i + 1;
    }
    let n = names.len();
    let mut adj: Vec<Vec<usize>> = Vec::new();
    let mut a: usize = 0;
    while a < n
        invariant
            n == names@.len(),
            a <= n,
            adj@.len() == a,
            forall|j: int|
                #![trigger pidx@[j]]
                0 <= j < pidx@.len() ==> (pidx@[j].0 as int) < n && (pidx@[j].1 as int) < n,
            forall|c: int, m: int|
                #![trigger adj@[c]@[m]]
                0 <= c < a && 0 <= m < adj@[c]@.len() ==> has_pair(pidx@, c, adj@[c]@[m]),
            forall|j: int|
                #![trigger pidx@[j]]
                0 <= j < pidx@.len() && (pidx@[j].0 as int) < a ==> adj@[pidx@[j].0 as int]@.contains(pidx@[j].1),
        decreases n - a,
    {
        let mut row: Vec<usize> = Vec::new();
        let mut j: usize = 0;
        while j < pidx.len()
            invariant
                n == names@.len(),
                a < n,
                j <= pidx@.len(),
                forall|jj: int|
                    #![trigger pidx@[jj]]
                    0 <= jj < pidx@.len() ==> (pidx@[jj].0 as int) < n && (pidx@[jj].1 as int) < n,
                forall|m: int|
                    #![trigger row@[m]]
                    0 <= m < row@.len() ==> exists|jj: int| 0 <= jj < pidx@.len() && #[trigger] pidx@[jj] == (a, row@[m]),
                forall|jj: int| #![trigger pidx@[jj]] 0 <= jj < j && pidx@[jj].0 == a ==> row@.contains(pidx@[jj].1),
            decreases pidx.len() - j,
        {
            if pidx[j].0 == a {
                let ghost r0 = row@;
                row.push(pidx[j].1);
                proof {
                    assert(pidx@[j as int] == (a, row@[row@.len() - 1]));
                    assert forall|m: int| #![trigger row@[m]] 0 <= m < row@.len() implies exists|jj: int| 0 <= jj < pidx@.len() && #[trigger] pidx@[jj] == (a, row@[m]) by {
                        if m < r0.len() {
                            assert(row@[m] == r0[m]);
                        } else {
                            assert(pidx@[j as int] == (a, row@[m]));
                        }
                    }
                    assert forall|jj: int| #![trigger pidx@[jj]] 0 <= jj < j + 1 && pidx@[jj].0 == a implies row@.contains(pidx@[jj].1) by {
                        if jj < j {
                            let m = choose|m: int| 0 <= m < r0.len() && r0[m] == pidx@[jj].1;
                            assert(row@[m] == pidx@[jj].1);
                        } else {
                            assert(row@[row@.len() - 1] == pidx@[jj].1);
                        }
                    }
                }
            }
            j = j + 1;
        }
        let ghost adj0 = adj@;
        adj.push(row);
        proof {
            assert forall|c: int, m: int|
                #![trigger adj@[c]@[m]]
                0 <= c < a + 1 && 0 <= m < adj@[c]@.len() implies has_pair(pidx@, c, adj@[c]@[m]) by {
                if c < a {
                    assert(adj@[c] == adj0[c]);
                    assert(has_pair(pidx@, c, adj0[c]@[m]));
                    let jj = choose|jj: int| 0 <= jj < pidx@.len() && #[trigger] pidx@[jj] == (c as usize, adj0[c]@[m]);
                    assert(pidx@[jj] == (c as usize, adj@[c]@[m]));
                } else {
                    assert(adj@[c]@ == row@);
                    assert(row@[m] == adj@[c]@[m]);
                    let jj = choose|jj: int| 0 <= jj < pidx@.len() && #[trigger] pidx@[jj] == (a, row@[m]);
                    assert(pidx@[jj] == (c as usize, adj@[c]@[m]));
                }
            }
            assert forall|jj: int|
                #![trigger pidx@[jj]]
                0 <= jj < pidx@.len() && (pidx@[jj].0 as int) < a + 1 implies adj@[pidx@[jj].0 as int]@.contains(pidx@[jj].1) by {
                if (pidx@[jj].0 as int) < a {
                    assert(adj@[pidx@[jj].0 as int] == adj0[pidx@[jj].0 as int]);
                }
            }
        }
        a = a + 1;
    }
    let ghost g = graph_view(adj@);
    proof {
        assert(well_formed_graph(g)) by {
            assert forall|c: int, m: int| #![trigger g[c][m]] 0 <= c < g.len() && 0 <= m < g[c].len() implies (g[c][m] as int) < g.len() by {
                assert(g[c] == adj@[c]@);
                assert(has_pair(pidx@, c, adj@[c]@[m]));
                let jj = choose|jj: int| 0 <= jj < pidx@.len() && #[trigger] pidx@[jj] == (c as usize, adj@[c]@[m]);
            }
        }
        assert forall|j: int| 0 <= j < ridx@.len() implies (#[trigger] ridx@[j] as int) < adj@.len() by {
        }
    }
    let reached = reachable_set(&adj, &ridx);
    let mut out: Vec<String> = Vec::new();
    let mut c: usize = 0;
    while c < n
        invariant
            n == names@.len(),
            c <= n,
            reached@.len() == n,
            texts(names@).no_duplicates(),
            forall|m: int| 0 <= m < out@.len() ==> #[trigger] picked(out@, names@, reached@, c as int, m),
            forall|v: int| #![trigger names@[v]] 0 <= v < c && reached@[v] ==> texts(out@).contains(names@[v]@),
            texts(out@).no_duplicates(),
        decreases n - c,
    {
        let ghost o_prev = out@;
        if reached[c] {
            let ghost o0 = out@;
            out.push(names[c].clone());
            proof {
                assert forall|m: int| 0 <= m < out@.len() implies #[trigger] picked(out@, names@, reached@, c + 1, m) by {
                    if m < o0.len() {
                        assert(out@[m] == o0[m]);
                        assert(picked(o0, names@, reached@, c as int, m));
                        let v = choose|v: int| 0 <= v < c && reached@[v] && o0[m]@ == #[trigger] names@[v]@;
                        assert(out@[m]@ == names@[v]@);
                    } else {
                        assert(out@[m]@ == names@[c as int]@);
                    }
                }
                assert forall|v: int| #![trigger names@[v]] 0 <= v < c + 1 && reached@[v] implies texts(out@).contains(names@[v]@) by {
                    if v < c {
                        let m = choose|m: int| 0 <= m < texts(o0).len() && texts(o0)[m] == names@[v]@;
                        assert(texts(out@)[m] == names@[v]@);
                    } else {
                        assert(texts(out@)[out@.len() - 1] == names@[v]@);
                    }
                }
                assert forall|x: int, y: int| 0 <= x < texts(out@).len() && 0 <= y < texts(out@).len() && x != y implies texts(out@)[x] != texts(out@)[y] by {
                    if x < o0.len() && y < o0.len() {
                        assert(texts(o0)[x] == texts(out@)[x]);
                        assert(texts(o0)[y] == texts(out@)[y]);
                    } else if x < o0.len() {
                        assert(out@[x] == o0[x]);
                        assert(picked(o0, names@, reached@, c as int, x));
                        let v = choose|v: int| 0 <= v < c && reached@[v] && o0[x]@ == #[trigger] names@[v]@;
                        assert(texts(names@)[v] == names@[v]@);
                        assert(texts(names@)[c as int] == names@[c as int]@);
                    } else if y < o0.len() {
                        assert(out@[y] == o0[y]);
                        assert(picked(o0, names@, reached@, c as int, y));
                        let v = choose|v: int| 0 <= v < c && reached@[v] && o0[y]@ == #[trigger] names@[v]@;
                        assert(texts(names@)[v] == names@[v]@);
                        assert(texts(names@)[c as int] == names@[c as int]@);
                    }
                }
            }
        } else {
            proof {
                assert forall|m: int| 0 <= m < out@.len() implies #[trigger] picked(out@, names@, reached@, c + 1, m) by {
                    assert(picked(o_prev, names@, reached@, c as int, m));
                    let v = choose|v: int| 0 <= v < c && reached@[v] && o_prev[m]@ == #[trigger] names@[v]@;
                    assert(out@[m]@ == names@[v]@);
                }
            }
        }
        c = c + 1;
    }
    proof {
        assert forall|x: Seq<char>| #![trigger texts(out@).contains(x)] texts(out@).contains(x) <==> name_reachable(e, rv, x) by {
            if texts(out@).contains(x) {
                let m = choose|m: int| 0 <= m < texts(out@).len() && texts(out@)[m] == x;
                assert(out@[m]@ == x);
                assert(picked(out@, names@, reached@, n as int, m));
                let v = choose|v: int| 0 <= v < n && reached@[v] && out@[m]@ == #[trigger] names@[v]@;
                assert(reached@[(v as usize) as int]);
                assert(reachable(g, ridx@, v as usize));
                // every closed set of names holds the name of a reachable node
                assert forall|s: Set<Seq<char>>| #![trigger s.contains(x)] names_closed(e, s) && holds_names(rv, s) implies s.contains(x) by {
                    let t = Set::new(|i: usize| (i as int) < n && s.contains(names@[i as int]@));
                    assert(closed_under_calls(g, t)) by {
                        assert forall|aa: usize, kk: int|
                            #![trigger t.contains(aa), g[aa as int][kk]]
                            t.contains(aa) && (aa as int) < g.len() && 0 <= kk < g[aa as int].len() implies t.contains(g[aa as int][kk]) by {
                            assert(g[aa as int] == adj@[aa as int]@);
                            assert(has_pair(pidx@, aa as int, adj@[aa as int]@[kk]));
                            let jj = choose|jj: int| 0 <= jj < pidx@.len() && #[trigger] pidx@[jj] == (aa, adj@[aa as int]@[kk]);
                            assert(s.contains(e[jj].0));
                        }
                    }
                    assert(holds_roots(ridx@, t)) by {
                        assert forall|j: int| 0 <= j < ridx@.len() implies t.contains(#[trigger] ridx@[j]) by {
                            assert(s.contains(rv[j]));
                        }
                    }
                    assert(t.contains(v as usize));
                }
            }
            if name_reachable(e, rv, x) {
                let u = Set::new(|y: Seq<char>| exists|v: int| 0 <= v < n && reached@[v] && #[trigger] names@[v]@ == y);
                assert(names_closed(e, u)) by {
                    assert forall|kk: int| 0 <= kk < e.len() && #[trigger] u.contains(e[kk].0) implies u.contains(e[kk].1) by {
                        let v = choose|v: int| 0 <= v < n && reached@[v] && #[trigger] names@[v]@ == e[kk].0;
                        let pa = pidx@[kk].0;
                        let pb = pidx@[kk].1;
                        assert(texts(names@)[v] == texts(names@)[pa as int]);
                        assert(pa as int == v);
                        assert(adj@[pa as int]@.contains(pb));
                        let mm = choose|mm: int| 0 <= mm < adj@[pa as int]@.len() && adj@[pa as int]@[mm] == pb;
                        assert(g[pa as int][mm] == pb);
                        assert(reached@[(pa as usize) as int]);
                        lemma_reachable_closed(g, ridx@, pa, mm);
                        assert(reached@[(pb as usize) as int]);
                        assert(names@[pb as int]@ == e[kk].1);
                    }
                }
                assert(holds_names(rv, u)) by {
                    assert forall|j: int| 0 <= j < rv.len() implies u.contains(#[trigger] rv[j]) by {
                        assert((ridx@[j] as int) < n);
                        lemma_root_reachable(g, ridx@, j);
                        assert(reached@[(ridx@[j] as usize) as int]);
                        assert(names@[ridx@[j] as int]@ == rv[j]);
                    }
                }
                assert(u.contains(x));
                let v = choose|v: int| 0 <= v < n && reached@[v] && #[trigger] names@[v]@ == x;
                assert(texts(out@).contains(names@[v]@));
            }
        }
    }
    out
}


/// Reachability follows direct calls only: a reachable function that is not
/// a root is called by some reachable function.
pub proof fn law_reachable_has_reachable_caller(g: Seq<Seq<usize>>, roots: Seq<usize>, v: usize)
    requires
        reachable(g, roots, v),
        !roots.contains(v),
    ensures
        exists|a: usize, k: int|
            #![trigger g[a as int][k]]
            (a as int) < g.len() && 0 <= k < g[a as int].len() && g[a as int][k] == v && reachable(g, roots, a),
{
    if !exists|a: usize, k: int|
        #![trigger g[a as int][k]]
        (a as int) < g.len() && 0 <= k < g[a as int].len() && g[a as int][k] == v && reachable(g, roots, a) {
        let s = Set::new(|x: usize| reachable(g, roots, x) && x != v);
        assert forall|a: usize, k: int|
            #![trigger s.contains(a), g[a as int][k]]
            s.contains(a) && (a as int) < g.len() && 0 <= k < g[a as int].len() implies s.contains(g[a as int][k]) by {
            lemma_reachable_closed(g, roots, a, k);
        }
        assert forall|i: int| 0 <= i < roots.len() implies s.contains(#[trigger] roots[i]) by {
            lemma_root_reachable(g, roots, i);
        }
        assert(s.contains(v));
    }
}

/// Every root name is reachable.
pub proof fn law_name_root_reachable(edges: Seq<(Seq<char>, Seq<char>)>, roots: Seq<Seq<char>>, i: int)
    requires
        0 <= i < roots.len(),
    ensures
        name_reachable(edges, roots, roots[i]),
{
    let r = roots[i];
    assert forall|s: Set<Seq<char>>| #![trigger s.contains(r)] names_closed(edges, s) && holds_names(roots, s) implies s.contains(r) by {
    }
}

/// Name reachability is closed under the call edges.
pub proof fn law_name_reachable_closed(edges: Seq<(Seq<char>, Seq<char>)>, roots: Seq<Seq<char>>, k: int)
    requires
        0 <= k < edges.len(),
        name_reachable(edges, roots, edges[k].0),
    ensures
        name_reachable(edges, roots, edges[k].1),
{
    let b = edges[k].1;
    assert forall|s: Set<Seq<char>>| #![trigger s.contains(b)] names_closed(edges, s) && holds_names(roots, s) implies s.contains(b) by {
        assert(s.contains(edges[k].0));
    }
}

/// Name reachability follows the call edges only: a reachable name that is
/// not a root is the callee of an edge from a reachable name.
pub proof fn law_name_reachable_has_reachable_caller(edges: Seq<(Seq<char>, Seq<char>)>, roots: Seq<Seq<char>>, v: Seq<char>)
    requires
        name_reachable(edges, roots, v),
        !roots.contains(v),
    ensures
        exists|k: int| 0 <= k < edges.len() && (#[trigger] edges[k]).1 == v && name_reachable(edges, roots, edges[k].0),
{
    if !exists|k: int| 0 <= k < edges.len() && (#[trigger] edges[k]).1 == v && name_reachable(edges, roots, edges[k].0) {
        let s = Set::new(|x: Seq<char>| name_reachable(edges, roots, x) && x != v);
        assert forall|k: int| 0 <= k < edges.len() && #[trigger] s.contains(edges[k].0) implies s.contains(edges[k].1) by {
            law_name_reachable_closed(edges, roots, k);
        }
        assert forall|i: int| 0 <= i < roots.len() implies s.contains(#[trigger] roots[i]) by {
            law_name_root_reachable(edges, roots, i);
        }
        assert(s.contains(v));
    }
}

/// With no roots nothing is reachable.
pub proof fn law_no_roots_nothing_reachable(edges: Seq<(Seq<char>, Seq<char>)>, v: Seq<char>)
    ensures
        !name_reachable(edges, Seq::empty(), v),
{
    let s = Set::<Seq<char>>::empty();
    assert(names_closed(edges, s));
    assert(holds_names(Seq::empty(), s));
    assert(!s.contains(v));
}

} // verus!
