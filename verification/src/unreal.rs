use vstd::prelude::*;
use vstd::string::*;
use crate::text::{trim_start, trim_end, is_ws, is_whitespace, chars_of, string_from, trim, strip_repeated_prefix, has_prefix, trim_chars, strip_repeated_prefix_chars, starts_with, is_one_of};
use crate::reach::{texts, pairs_view, name_reachable, reachable_names, index_of, lemma_index_found, push_distinct_pairs};
use crate::findings::{Finding, FindingView, views, copy_finding, sorted_dedup_views, sort_dedup};
use crate::cxx::{WorkerOutput, cand_views, opt_text};
use crate::config::Config;

verus! {

// ---- Compile-command splitting ---------------------------------------------

/// One step of the compile-command splitter: the arguments completed so far,
/// the argument being built, and whether a double quote is open.
pub open spec fn split_step(
    st: (Seq<Seq<char>>, Seq<char>, bool),
    c: char,
) -> (Seq<Seq<char>>, Seq<char>, bool) {
    let (args, cur, in_quotes) = st;
    if c == '"' {
        (args, cur, !in_quotes)
    } else if is_ws(c) && !in_quotes {
        if cur.len() > 0 {
            (args.push(cur), Seq::empty(), in_quotes)
        } else {
            (args, cur, in_quotes)
        }
    } else {
        (args, cur.push(c), in_quotes)
    }
}

/// The splitter's state after reading all of `s`.
pub open spec fn split_state(s: Seq<char>) -> (Seq<Seq<char>>, Seq<char>, bool)
    decreases s.len(),
{
    if s.len() == 0 {
        (Seq::empty(), Seq::empty(), false)
    } else {
        split_step(split_state(s.drop_last()), s.last())
    }
}

/// The arguments of a compile command: white space outside double quotes
/// separates arguments, every double quote toggles quoting and is dropped,
/// and empty arguments are dropped.
pub open spec fn split_command_spec(s: Seq<char>) -> Seq<Seq<char>> {
    let (args, cur, _q) = split_state(s);
    if cur.len() > 0 {
        args.push(cur)
    } else {
        args
    }
}

/// Every argument the splitter completes is non-empty and holds no quote.
pub open spec fn args_clean(args: Seq<Seq<char>>) -> bool {
    forall|i: int|
        #![trigger args[i]]
        0 <= i < args.len() ==> args[i].len() > 0 && !args[i].contains('"')
}

proof fn lemma_split_state_clean(s: Seq<char>)
    ensures
        args_clean(split_state(s).0),
        !split_state(s).1.contains('"'),
    decreases s.len(),
{
    if s.len() > 0 {
        lemma_split_state_clean(s.drop_last());
        let (a, cur, q) = split_state(s.drop_last());
        let c = s.last();
        if c != '"' && !(is_ws(c) && !q) {
            assert forall|k: int| 0 <= k < cur.push(c).len() implies cur.push(c)[k] != '"' by {
                if k < cur.len() {
                    assert(cur.push(c)[k] == cur[k]);
                }
            }
        }
        let (a2, _c2, _q2) = split_step(split_state(s.drop_last()), c);
        assert forall|i: int| #![trigger a2[i]] 0 <= i < a2.len() implies a2[i].len() > 0 && !a2[i].contains('"') by {
            if i < a.len() {
                assert(a2[i] == a[i]);
            }
        }
    }
}

/// Splits a compile command into its arguments, as a minimal shell-like
/// splitter: double quotes group white space into an argument and are
/// themselves dropped.
pub fn split_command(cmd: &str) -> (args: Vec<String>)
    ensures
        texts(args@) == split_command_spec(cmd@),
        args_clean(texts(args@)),
{
    let chars = chars_of(cmd);
    let mut args: Vec<String> = Vec::new();
    let mut cur: Vec<char> = Vec::new();
    let mut in_quotes = false;
    let mut i: usize = 0;
    while i < chars.len()
        invariant
            chars@ == cmd@,
            i <= chars@.len(),
            (texts(args@), cur@, in_quotes) == split_state(chars@.take(i as int)),
        decreases chars.len() - i,
    {
        let c = chars[i];
        proof {
            assert(chars@.take(i + 1).drop_last() =~= chars@.take(i as int));
            assert(chars@.take(i + 1).last() == c);
        }
        if c == '"' {
            in_quotes = !in_quotes;
        } else if is_whitespace(c) && !in_quotes {
            if cur.len() > 0 {
                let ghost a0 = args@;
                args.push(string_from(cur.as_slice()));
                cur = Vec::new();
                assert(texts(args@) =~= texts(a0).push(split_state(chars@.take(i as int)).1));
            }
        } else {
            cur.push(c);
        }
        i = i + 1;
    }
    proof {
        assert(chars@.take(chars@.len() as int) =~= chars@);
        lemma_split_state_clean(cmd@);
    }
    if cur.len() > 0 {
        let ghost a0 = args@;
        args.push(string_from(cur.as_slice()));
        assert(texts(args@) =~= texts(a0).push(cur@));
    }
    proof {
        let r = texts(args@);
        assert forall|k: int| #![trigger r[k]] 0 <= k < r.len() implies r[k].len() > 0 && !r[k].contains('"') by {
            let (a, c, q) = split_state(cmd@);
            if k < a.len() {
                assert(r[k] == a[k]);
            }
        }
    }
    args
}

// ---- Laws of the compile-command splitter ---------------------------------------------

/// The splitter's state after reading `s` from the state `st`.
pub open spec fn split_run(st: (Seq<Seq<char>>, Seq<char>, bool), s: Seq<char>) -> (Seq<Seq<char>>, Seq<char>, bool)
    decreases s.len(),
{
    if s.len() == 0 {
        st
    } else {
        split_step(split_run(st, s.drop_last()), s.last())
    }
}

/// The arguments of a final splitter state: the completed ones, then the
/// one being built if it is not empty.
pub open spec fn split_finish(st: (Seq<Seq<char>>, Seq<char>, bool)) -> Seq<Seq<char>> {
    if st.1.len() > 0 {
        st.0.push(st.1)
    } else {
        st.0
    }
}

proof fn lemma_split_state_run(s: Seq<char>)
    ensures
        split_state(s) == split_run((Seq::empty(), Seq::empty(), false), s),
    decreases s.len(),
{
    if s.len() > 0 {
        lemma_split_state_run(s.drop_last());
    }
}

proof fn lemma_split_run_concat(st: (Seq<Seq<char>>, Seq<char>, bool), a: Seq<char>, b: Seq<char>)
    ensures
        split_run(st, a + b) == split_run(split_run(st, a), b),
    decreases b.len(),
{
    if b.len() == 0 {
        assert(a + b =~= a);
    } else {
        assert((a + b).drop_last() =~= a + b.drop_last());
        assert((a + b).last() == b.last());
        lemma_split_run_concat(st, a, b.drop_last());
    }
}

proof fn lemma_split_run_one(st: (Seq<Seq<char>>, Seq<char>, bool), c: char)
    ensures
        split_run(st, seq![c]) == split_step(st, c),
{
    assert(seq![c].drop_last() =~= Seq::<char>::empty());
    assert(split_run(st, seq![c].drop_last()) == st);
    assert(seq![c].last() == c);
}

/// The end of the run of non-white-space characters of `s` from `i`.
pub open spec fn word_end(s: Seq<char>, i: int) -> int
    decreases s.len() - i,
{
    if i < 0 || i >= s.len() || is_ws(s[i]) {
        i
    } else {
        word_end(s, i + 1)
    }
}

/// Where a run of non-white-space characters ends.
pub proof fn lemma_word_end(s: Seq<char>, i: int)
    requires
        0 <= i <= s.len(),
    ensures
        i <= word_end(s, i) <= s.len(),
        forall|k: int| i <= k < word_end(s, i) ==> !is_ws(#[trigger] s[k]),
        word_end(s, i) < s.len() ==> is_ws(s[word_end(s, i)]),
    decreases s.len() - i,
{
    if i < s.len() && !is_ws(s[i]) {
        lemma_word_end(s, i + 1);
    }
}

/// The words of `s` from position `i` on: its maximal runs of
/// non-white-space characters, in order.
pub open spec fn words_from(s: Seq<char>, i: int) -> Seq<Seq<char>>
    decreases s.len() - i,
{
    if i < 0 || i >= s.len() {
        Seq::empty()
    } else if is_ws(s[i]) {
        words_from(s, i + 1)
    } else {
        let j = word_end(s, i + 1);
        proof {
            lemma_word_end(s, i + 1);
        }
        seq![s.subrange(i, j)] + words_from(s, j)
    }
}

/// What `str::split_whitespace` yields: the maximal runs of
/// non-white-space characters of `s`, in order.
pub open spec fn whitespace_words(s: Seq<char>) -> Seq<Seq<char>> {
    words_from(s, 0)
}

proof fn lemma_split_run_word(s: Seq<char>, i: int, k: int, w: Seq<Seq<char>>, q: bool)
    requires
        0 <= i <= k <= s.len(),
        forall|m: int| i <= m < k ==> !is_ws(#[trigger] s[m]) && s[m] != '"',
    ensures
        split_run((w, Seq::empty(), q), s.subrange(i, k)) == (w, s.subrange(i, k), q),
    decreases k - i,
{
    if k > i {
        lemma_split_run_word(s, i, k - 1, w, q);
        assert(s.subrange(i, k).drop_last() =~= s.subrange(i, k - 1));
        assert(s.subrange(i, k - 1).push(s[k - 1]) =~= s.subrange(i, k));
    } else {
        assert(s.subrange(i, k) =~= Seq::<char>::empty());
    }
}

proof fn lemma_split_words_from(s: Seq<char>, i: int, w: Seq<Seq<char>>)
    requires
        0 <= i <= s.len(),
        !s.contains('"'),
    ensures
        split_finish(split_run((w, Seq::empty(), false), s.skip(i))) == w + words_from(s, i),
    decreases s.len() - i,
{
    let st = (w, Seq::<char>::empty(), false);
    if i == s.len() {
        assert(s.skip(i) =~= Seq::<char>::empty());
        assert(w + Seq::<Seq<char>>::empty() =~= w);
    } else if is_ws(s[i]) {
        assert(s[i] != '"');
        assert(s.skip(i) =~= seq![s[i]] + s.skip(i + 1));
        lemma_split_run_concat(st, seq![s[i]], s.skip(i + 1));
        lemma_split_run_one(st, s[i]);
        lemma_split_words_from(s, i + 1, w);
    } else {
        let j = word_end(s, i + 1);
        lemma_word_end(s, i + 1);
        assert forall|m: int| i <= m < j implies !is_ws(#[trigger] s[m]) && s[m] != '"' by {
            if s[m] == '"' {
                assert(s.contains(s[m]));
            }
        }
        let word = s.subrange(i, j);
        assert(s.skip(i) =~= word + s.skip(j));
        lemma_split_run_concat(st, word, s.skip(j));
        lemma_split_run_word(s, i, j, w, false);
        if j == s.len() {
            assert(s.skip(j) =~= Seq::<char>::empty());
            assert(w.push(word) =~= w + (seq![word] + Seq::<Seq<char>>::empty()));
        } else {
            let st2 = (w, word, false);
            assert(s[j] != '"') by {
                if s[j] == '"' {
                    assert(s.contains(s[j]));
                }
            }
            assert(s.skip(j) =~= seq![s[j]] + s.skip(j + 1));
            lemma_split_run_concat(st2, seq![s[j]], s.skip(j + 1));
            lemma_split_run_one(st2, s[j]);
            lemma_split_words_from(s, j + 1, w.push(word));
            assert(w.push(word) + words_from(s, j + 1) =~= w + (seq![word] + words_from(s, j)));
        }
    }
}

/// Without double quotes the splitter is `split_whitespace`: the arguments
/// are the maximal runs of non-white-space characters.
pub proof fn law_split_without_quotes(cmd: Seq<char>)
    requires
        !cmd.contains('"'),
    ensures
        split_command_spec(cmd) == whitespace_words(cmd),
{
    lemma_split_state_run(cmd);
    assert(cmd.skip(0) =~= cmd);
    lemma_split_words_from(cmd, 0, Seq::empty());
    assert(Seq::<Seq<char>>::empty() + words_from(cmd, 0) =~= words_from(cmd, 0));
}

/// An argument in double quotes.
pub open spec fn quoted(a: Seq<char>) -> Seq<char> {
    seq!['"'] + a + seq!['"']
}

/// The arguments each in double quotes, joined by single spaces.
pub open spec fn quoted_join(args: Seq<Seq<char>>) -> Seq<char>
    decreases args.len(),
{
    if args.len() == 0 {
        Seq::empty()
    } else if args.len() == 1 {
        quoted(args[0])
    } else {
        quoted_join(args.drop_last()) + seq![' '] + quoted(args.last())
    }
}

proof fn lemma_split_run_in_quotes(w: Seq<Seq<char>>, cur: Seq<char>, a: Seq<char>)
    requires
        !a.contains('"'),
    ensures
        split_run((w, cur, true), a) == (w, cur + a, true),
    decreases a.len(),
{
    if a.len() == 0 {
        assert(cur + a =~= cur);
    } else {
        assert(!a.drop_last().contains('"')) by {
            if a.drop_last().contains('"') {
                let k = choose|k: int| 0 <= k < a.drop_last().len() && a.drop_last()[k] == '"';
                assert(a[k] == '"');
            }
        }
        assert(a.last() != '"') by {
            if a.last() == '"' {
                assert(a[a.len() - 1] == '"');
            }
        }
        lemma_split_run_in_quotes(w, cur, a.drop_last());
        assert((cur + a.drop_last()).push(a.last()) =~= cur + a);
    }
}

proof fn lemma_split_run_quoted(w: Seq<Seq<char>>, a: Seq<char>)
    requires
        !a.contains('"'),
    ensures
        split_run((w, Seq::empty(), false), quoted(a)) == (w, a, false),
{
    let st = (w, Seq::<char>::empty(), false);
    lemma_split_run_concat(st, seq!['"'] + a, seq!['"']);
    lemma_split_run_concat(st, seq!['"'], a);
    lemma_split_run_one(st, '"');
    lemma_split_run_in_quotes(w, Seq::empty(), a);
    assert(Seq::<char>::empty() + a =~= a);
    lemma_split_run_one((w, a, true), '"');
}

proof fn lemma_split_quoted_join(args: Seq<Seq<char>>)
    requires
        args.len() > 0,
        args_clean(args),
    ensures
        split_run((Seq::empty(), Seq::empty(), false), quoted_join(args)) == (args.drop_last(), args.last(), false),
    decreases args.len(),
{
    let init = (Seq::<Seq<char>>::empty(), Seq::<char>::empty(), false);
    assert(args[args.len() - 1].len() > 0 && !args[args.len() - 1].contains('"'));
    if args.len() == 1 {
        lemma_split_run_quoted(Seq::empty(), args[0]);
        assert(args.drop_last() =~= Seq::<Seq<char>>::empty());
    } else {
        let prev = args.drop_last();
        assert(args_clean(prev)) by {
            assert forall|i: int| #![trigger prev[i]] 0 <= i < prev.len() implies prev[i].len() > 0 && !prev[i].contains('"') by {
                assert(prev[i] == args[i]);
            }
        }
        lemma_split_quoted_join(prev);
        assert(prev.last() == args[args.len() - 2]);
        let head = quoted_join(prev) + seq![' '];
        lemma_split_run_concat(init, head, quoted(args.last()));
        lemma_split_run_concat(init, quoted_join(prev), seq![' ']);
        lemma_split_run_one((prev.drop_last(), prev.last(), false), ' ');
        assert(prev.drop_last().push(prev.last()) =~= prev);
        lemma_split_run_quoted(prev, args.last());
    }
}

/// Quoting each argument and joining them with spaces, then splitting,
/// gives the arguments back, for arguments that are not empty and hold no
/// double quote (they may hold white space).
pub proof fn law_split_quoted_round_trip(args: Seq<Seq<char>>)
    requires
        args_clean(args),
    ensures
        split_command_spec(quoted_join(args)) == args,
{
    lemma_split_state_run(quoted_join(args));
    if args.len() > 0 {
        lemma_split_quoted_join(args);
        assert(args[args.len() - 1].len() > 0);
        assert(args.drop_last().push(args.last()) =~= args);
    }
}

// ---- Type-name checks ------------------------------------------------------

/// A libclang type spelling names a `TMap`/`TSet`, once any leading `const `
/// qualifiers and surrounding white space are dropped.
pub open spec fn is_map_or_set_spec(display_name: Seq<char>) -> bool {
    let t = trim(strip_repeated_prefix(display_name, "const "@));
    has_prefix(t, "TMap<"@) || has_prefix(t, "TSet<"@)
}

/// Whether a type spelling names a hash-backed `TMap`/`TSet`.
pub fn is_map_or_set_type(display_name: &str) -> (r: bool)
    ensures
        r == is_map_or_set_spec(display_name@),
{
    let s = chars_of(display_name);
    let stripped = strip_repeated_prefix_chars(s.as_slice(), chars_of("const ").as_slice());
    let t = trim_chars(stripped.as_slice());
    starts_with(t.as_slice(), chars_of("TMap<").as_slice()) || starts_with(
        t.as_slice(),
        chars_of("TSet<").as_slice(),
    )
}

/// The pointer-width integer spellings.
pub open spec fn pointer_width_names() -> Seq<Seq<char>> {
    seq!["SIZE_T"@, "size_t"@, "uintptr_t"@, "intptr_t"@]
}

/// Whether a type spelling is one of the pointer-width integer types.
pub fn is_pointer_width_type(display_name: &str) -> (r: bool)
    ensures
        r == pointer_width_names().contains(display_name@),
{
    let names: Vec<Vec<char>> = vec![
        chars_of("SIZE_T"),
        chars_of("size_t"),
        chars_of("uintptr_t"),
        chars_of("intptr_t"),
    ];
    let r = is_one_of(chars_of(display_name).as_slice(), &names);
    proof {
        assert(names@.map_values(|v: Vec<char>| v@) =~= pointer_width_names());
        if r {
            let i = choose|i: int| 0 <= i < names@.len() && #[trigger] names@[i]@ == display_name@;
            assert(pointer_width_names()[i] == display_name@);
        }
        if pointer_width_names().contains(display_name@) {
            let i = choose|i: int| 0 <= i < 4 && pointer_width_names()[i] == display_name@;
            assert(names@[i]@ == display_name@);
        }
    }
    r
}


// ---- Aggregating the units -------------------------------------------------------------

/// The unconditional findings of the first `i` units that were scanned.
pub open spec fn outputs_findings(outs: Seq<Option<WorkerOutput>>, i: int) -> Seq<FindingView>
    decreases i,
{
    if i <= 0 || i > outs.len() {
        Seq::empty()
    } else {
        outputs_findings(outs, i - 1) + match outs[i - 1] {
            Some(o) => views(o.findings@),
            None => Seq::empty(),
        }
    }
}

/// The call edges of the first `i` units that were scanned.
pub open spec fn outputs_edges(outs: Seq<Option<WorkerOutput>>, i: int) -> Seq<(Seq<char>, Seq<char>)>
    decreases i,
{
    if i <= 0 || i > outs.len() {
        Seq::empty()
    } else {
        outputs_edges(outs, i - 1) + match outs[i - 1] {
            Some(o) => pairs_view(o.edges@),
            None => Seq::empty(),
        }
    }
}

/// The tagged float findings of the first `i` units that were scanned.
pub open spec fn outputs_candidates(outs: Seq<Option<WorkerOutput>>, i: int) -> Seq<(Seq<char>, FindingView)>
    decreases i,
{
    if i <= 0 || i > outs.len() {
        Seq::empty()
    } else {
        outputs_candidates(outs, i - 1) + match outs[i - 1] {
            Some(o) => cand_views(o.float_candidates@),
            None => Seq::empty(),
        }
    }
}

/// How many of the first `i` units were scanned.
pub open spec fn scanned_count(outs: Seq<Option<WorkerOutput>>, i: int) -> int
    decreases i,
{
    if i <= 0 || i > outs.len() {
        0
    } else {
        scanned_count(outs, i - 1) + if outs[i - 1] is Some {
            1int
        } else {
            0int
        }
    }
}

/// The first `k` tagged float findings whose function is reachable and not
/// exempt.
pub open spec fn kept_candidates(
    cands: Seq<(Seq<char>, FindingView)>,
    k: int,
    reach: spec_fn(Seq<char>) -> bool,
    exempt: Seq<Seq<char>>,
) -> Seq<FindingView>
    decreases k,
{
    if k <= 0 || k > cands.len() {
        Seq::empty()
    } else {
        kept_candidates(cands, k - 1, reach, exempt) + if reach(cands[k - 1].0) && !exempt.contains(cands[k - 1].0) {
            seq![cands[k - 1].1]
        } else {
            Seq::empty()
        }
    }
}

/// The names reachable from the configured roots over every unit's edges.
pub open spec fn unreal_reach(config: Config, outs: Seq<Option<WorkerOutput>>) -> spec_fn(Seq<char>) -> bool {
    |x: Seq<char>| name_reachable(outputs_edges(outs, outs.len() as int), texts(config.tick_reachable_roots@), x)
}

/// Every finding of a run before sorting: the units' unconditional findings
/// and, when roots are configured, the float findings of reachable,
/// non-exempt functions.
pub open spec fn unreal_collected(config: Config, outs: Seq<Option<WorkerOutput>>) -> Seq<FindingView> {
    let cands = outputs_candidates(outs, outs.len() as int);
    outputs_findings(outs, outs.len() as int) + if config.tick_reachable_roots@.len() > 0 {
        kept_candidates(cands, cands.len() as int, unreal_reach(config, outs), texts(config.fixed_step_functions@))
    } else {
        Seq::empty()
    }
}

/// The result of a run over every unit.
pub struct UnrealReport {
    /// The findings, sorted by place without duplicates.
    pub findings: Vec<Finding>,
    /// How many units were scanned.
    pub units_parsed: usize,
    /// The distinct call edges over every unit.
    pub edges: Vec<(String, String)>,
    /// Every unit's tagged float findings, before the reachability filter.
    pub candidates: Vec<(String, Finding)>,
}

/// What a run reports for the units' outputs (`None` for a unit that
/// failed), listed by command: the collected findings sorted by place
/// without duplicates, how many units were scanned, the distinct call
/// edges, and every unit's tagged float findings.
pub open spec fn report_of_outputs(config: Config, outputs: Seq<Option<WorkerOutput>>, r: UnrealReport) -> bool {
    &&& sorted_dedup_views(unreal_collected(config, outputs), views(r.findings@))
    &&& r.units_parsed as int == scanned_count(outputs, outputs.len() as int)
    &&& pairs_view(r.edges@).no_duplicates()
    &&& forall|p: (Seq<char>, Seq<char>)|
        #![trigger pairs_view(r.edges@).contains(p)]
        pairs_view(r.edges@).contains(p) <==> outputs_edges(outputs, outputs.len() as int).contains(p)
    &&& cand_views(r.candidates@) == outputs_candidates(outputs, outputs.len() as int)
}

fn push_pairs(out: &mut Vec<(String, String)>, src: &Vec<(String, String)>)
    ensures
        pairs_view(final(out)@) == pairs_view(old(out)@) + pairs_view(src@),
{
    let mut i: usize = 0;
    while i < src.len()
        invariant
            i <= src@.len(),
            pairs_view(out@) == pairs_view(old(out)@) + pairs_view(src@).take(i as int),
        decreases src.len() - i,
    {
        let ghost b = pairs_view(out@);
        out.push((src[i].0.clone(), src[i].1.clone()));
        assert(pairs_view(out@) =~= b.push(pairs_view(src@)[i as int]));
        assert(pairs_view(src@).take(i + 1) =~= pairs_view(src@).take(i as int).push(pairs_view(src@)[i as int]));
        assert(pairs_view(out@) =~= pairs_view(old(out)@) + pairs_view(src@).take(i + 1));
        i = i + 1;
    }
    assert(pairs_view(src@).take(src@.len() as int) =~= pairs_view(src@));
}

fn push_candidates(out: &mut Vec<(String, Finding)>, src: &Vec<(String, Finding)>)
    ensures
        cand_views(final(out)@) == cand_views(old(out)@) + cand_views(src@),
{
    let mut i: usize = 0;
    while i < src.len()
        invariant
            i <= src@.len(),
            cand_views(out@) == cand_views(old(out)@) + cand_views(src@).take(i as int),
        decreases src.len() - i,
    {
        let ghost b = cand_views(out@);
        out.push((src[i].0.clone(), copy_finding(&src[i].1)));
        assert(cand_views(out@) =~= b.push(cand_views(src@)[i as int]));
        assert(cand_views(src@).take(i + 1) =~= cand_views(src@).take(i as int).push(cand_views(src@)[i as int]));
        assert(cand_views(out@) =~= cand_views(old(out)@) + cand_views(src@).take(i + 1));
        i = i + 1;
    }
    assert(cand_views(src@).take(src@.len() as int) =~= cand_views(src@));
}

fn push_findings(out: &mut Vec<Finding>, src: &Vec<Finding>)
    ensures
        views(final(out)@) == views(old(out)@) + views(src@),
{
    let mut i: usize = 0;
    while i < src.len()
        invariant
            i <= src@.len(),
            views(out@) == views(old(out)@) + views(src@).take(i as int),
        decreases src.len() - i,
    {
        let ghost b = views(out@);
        out.push(copy_finding(&src[i]));
        assert(views(out@) =~= b.push(views(src@)[i as int]));
        assert(views(src@).take(i + 1) =~= views(src@).take(i as int).push(views(src@)[i as int]));
        assert(views(out@) =~= views(old(out)@) + views(src@).take(i + 1));
        i = i + 1;
    }
    assert(views(src@).take(src@.len() as int) =~= views(src@));
}

/// Aggregates the units' outputs (`None` for a unit that failed): every
/// unconditional finding, and, when roots are configured, the float
/// findings of functions reachable from a root over every unit's call
/// edges and not listed as fixed-step, all sorted by place with duplicates
/// dropped.
pub fn merge_outputs(config: &Config, outputs: &Vec<Option<WorkerOutput>>) -> (r: UnrealReport)
    ensures
        report_of_outputs(*config, outputs@, r),
{
    let mut found: Vec<Finding> = Vec::new();
    let mut all_edges: Vec<(String, String)> = Vec::new();
    let mut distinct: Vec<(String, String)> = Vec::new();
    let mut cands: Vec<(String, Finding)> = Vec::new();
    let mut parsed: usize = 0;
    let mut i: usize = 0;
    while i < outputs.len()
        invariant
            i <= outputs@.len(),
            parsed <= i,
            parsed as int == scanned_count(outputs@, i as int),
            views(found@) == outputs_findings(outputs@, i as int),
            pairs_view(all_edges@) == outputs_edges(outputs@, i as int),
            pairs_view(distinct@).no_duplicates(),
            forall|p: (Seq<char>, Seq<char>)|
                #![trigger pairs_view(distinct@).contains(p)]
                pairs_view(distinct@).contains(p) <==> outputs_edges(outputs@, i as int).contains(p),
            cand_views(cands@) == outputs_candidates(outputs@, i as int),
        decreases outputs.len() - i,
    {
        match &outputs[i] {
            Some(o) => {
                parsed = parsed + 1;
                push_findings(&mut found, &o.findings);
                push_pairs(&mut all_edges, &o.edges);
                let ghost d0 = pairs_view(distinct@);
                push_distinct_pairs(&mut distinct, &o.edges);
                push_candidates(&mut cands, &o.float_candidates);
                proof {
                    assert forall|p: (Seq<char>, Seq<char>)| #[trigger] pairs_view(distinct@).contains(p)
                        <==> outputs_edges(outputs@, i + 1).contains(p) by {
                        let a = outputs_edges(outputs@, i as int);
                        let b = pairs_view(o.edges@);
                        assert(outputs_edges(outputs@, i + 1) == a + b);
                        if (a + b).contains(p) {
                            let j = choose|j: int| 0 <= j < (a + b).len() && (a + b)[j] == p;
                            if j < a.len() {
                                assert(a[j] == p);
                            } else {
                                assert(b[j - a.len()] == p);
                            }
                        }
                        if a.contains(p) {
                            let j = choose|j: int| 0 <= j < a.len() && a[j] == p;
                            assert((a + b)[j] == p);
                        }
                        if b.contains(p) {
                            let j = choose|j: int| 0 <= j < b.len() && b[j] == p;
                            assert((a + b)[a.len() + j] == p);
                        }
                    }
                }
            },
            None => {
                proof {
                    assert(outputs_edges(outputs@, i + 1) =~= outputs_edges(outputs@, i as int));
                }
            },
        }
        i = i + 1;
    }
    if config.tick_reachable_roots.len() > 0 {
        let reachable = reachable_names(&all_edges, &config.tick_reachable_roots);
        let ghost reach = unreal_reach(*config, outputs@);
        let ghost base = views(found@);
        let ghost cv = cand_views(cands@);
        let mut k: usize = 0;
        while k < cands.len()
            invariant
                k <= cands@.len(),
                cv == cand_views(cands@),
                reach == unreal_reach(*config, outputs@),
                pairs_view(all_edges@) == outputs_edges(outputs@, outputs@.len() as int),
                forall|x: Seq<char>|
                    #![trigger texts(reachable@).contains(x)]
                    texts(reachable@).contains(x) <==> name_reachable(
                        pairs_view(all_edges@),
                        texts(config.tick_reachable_roots@),
                        x,
                    ),
                views(found@) == base + kept_candidates(cv, k as int, reach, texts(config.fixed_step_functions@)),
            decreases cands.len() - k,
        {
            let owner = &cands[k].0;
            let r_ix = index_of(&reachable, owner);
            let e_ix = index_of(&config.fixed_step_functions, owner);
            proof {
                lemma_index_found(reachable@, owner@, r_ix is Some);
                lemma_index_found(config.fixed_step_functions@, owner@, e_ix is Some);
                assert(cv[k as int].0 == owner@);
            }
            let ghost b = views(found@);
            proof {
                assert(reach(owner@) == texts(reachable@).contains(owner@));
            }
            if r_ix.is_some() && e_ix.is_none() {
                found.push(copy_finding(&cands[k].1));
                assert(views(found@) =~= b.push(cv[k as int].1));
            }
            assert(views(found@) =~= base + kept_candidates(cv, k + 1, reach, texts(config.fixed_step_functions@)));
            k = k + 1;
        }
    }
    assert(views(found@) =~= unreal_collected(*config, outputs@));
    let findings = sort_dedup(&found);
    UnrealReport { findings, units_parsed: parsed, edges: distinct, candidates: cands }
}


// ---- Compile-command arguments ---------------------------------------------------------

/// The arguments a compile command gives: its `arguments` list, else its
/// `command` string split, else none.
pub open spec fn command_args(arguments: Option<Vec<String>>, command: Option<String>) -> Seq<Seq<char>> {
    match arguments {
        Some(a) => texts(a@),
        None => match command {
            Some(c) => split_command_spec(c@),
            None => Seq::empty(),
        },
    }
}

/// The code of a character once ASCII upper case is folded to lower case.
pub open spec fn lower_code(c: char) -> int {
    if 'A' <= c && c <= 'Z' {
        c as int + 32
    } else {
        c as int
    }
}

/// `s` holds `p` at position `i`, ASCII case aside.
pub open spec fn matches_at_ci(s: Seq<char>, i: int, p: Seq<char>) -> bool {
    forall|j: int| 0 <= j < p.len() ==> lower_code(#[trigger] s[i + j]) == (p[j] as u32) as int
}

/// `s` holds `p` somewhere, ASCII case aside (`p` in lower case).
pub open spec fn contains_ci(s: Seq<char>, p: Seq<char>) -> bool {
    exists|i: int| 0 <= i && i + p.len() <= s.len() && #[trigger] matches_at_ci(s, i, p)
}

fn lower_code_exec(c: char) -> (r: u32)
    ensures
        r as int == lower_code(c),
{
    if 'A' <= c && c <= 'Z' {
        (c as u32) + 32
    } else {
        c as u32
    }
}

fn matches_at_ci_exec(s: &[char], i: usize, p: &[char]) -> (r: bool)
    requires
        i + p@.len() <= s@.len(),
    ensures
        r == matches_at_ci(s@, i as int, p@),
{
    let n = s.len();
    let mut j: usize = 0;
    while j < p.len()
        invariant
            n == s@.len(),
            i + p@.len() <= s@.len(),
            j <= p@.len(),
            forall|k: int| 0 <= k < j ==> lower_code(#[trigger] s@[i + k]) == (p@[k] as u32) as int,
        decreases p.len() - j,
    {
        if lower_code_exec(s[i + j]) != p[j] as u32 {
            assert(lower_code(s@[i + j]) != (p@[j as int] as u32) as int);
            return false;
        }
        j = j + 1;
    }
    true
}

/// Whether `s` holds `p`, ASCII case aside (`p` in lower case).
pub fn contains_ignoring_ascii_case(s: &str, p: &str) -> (r: bool)
    ensures
        r == contains_ci(s@, p@),
{
    let sc = chars_of(s);
    let pc = chars_of(p);
    if pc.len() > sc.len() {
        return false;
    }
    let mut i: usize = 0;
    while i <= sc.len() - pc.len()
        invariant
            sc@ == s@,
            pc@ == p@,
            pc@.len() <= sc@.len(),
            i <= sc@.len() - pc@.len() + 1,
            forall|k: int| 0 <= k < i ==> !#[trigger] matches_at_ci(s@, k, p@),
        decreases sc.len() - i,
    {
        if matches_at_ci_exec(sc.as_slice(), i, pc.as_slice()) {
            return true;
        }
        i = i + 1;
    }
    false
}

/// The arguments of a compile command before response files are expanded,
/// and whether its compiler is `clang-cl`: `None` when it gives no
/// arguments; otherwise the compiler (the first argument) is dropped.
pub fn compile_arguments(arguments: &Option<Vec<String>>, command: &Option<String>) -> (r: Option<(Vec<String>, bool)>)
    ensures
        match r {
            None => command_args(*arguments, *command).len() == 0,
            Some((rest, cl)) => {
                &&& command_args(*arguments, *command).len() > 0
                &&& texts(rest@) == command_args(*arguments, *command).drop_first()
                &&& cl == contains_ci(command_args(*arguments, *command)[0], "clang-cl"@)
            },
        },
{
    let args: Vec<String> = match arguments {
        Some(a) => {
            let mut v: Vec<String> = Vec::new();
            let mut i: usize = 0;
            while i < a.len()
                invariant
                    i <= a@.len(),
                    texts(v@) == texts(a@).take(i as int),
                decreases a.len() - i,
            {
                let ghost b = texts(v@);
                v.push(a[i].clone());
                assert(texts(v@) =~= b.push(texts(a@)[i as int]));
                assert(texts(a@).take(i + 1) =~= texts(a@).take(i as int).push(texts(a@)[i as int]));
                assert(texts(v@) =~= texts(a@).take(i + 1));
                i = i + 1;
            }
            assert(texts(a@).take(a@.len() as int) =~= texts(a@));
            v
        },
        None => match command {
            Some(c) => split_command(c.as_str()),
            None => Vec::new(),
        },
    };
    assert(texts(args@) == command_args(*arguments, *command));
    if args.len() == 0 {
        return None;
    }
    let cl = contains_ignoring_ascii_case(args[0].as_str(), "clang-cl");
    let mut rest: Vec<String> = Vec::new();
    let mut i: usize = 1;
    while i < args.len()
        invariant
            1 <= i <= args@.len(),
            texts(rest@) == texts(args@).subrange(1, i as int),
        decreases args.len() - i,
    {
        let ghost b = texts(rest@);
        rest.push(args[i].clone());
        assert(texts(rest@) =~= b.push(texts(args@)[i as int]));
        assert(texts(rest@) =~= texts(args@).subrange(1, i + 1));
        i = i + 1;
    }
    assert(texts(args@).subrange(1, args@.len() as int) =~= texts(args@).drop_first());
    Some((rest, cl))
}

/// The path a `@path` response-file argument names.
pub open spec fn response_path(arg: Seq<char>) -> Option<Seq<char>> {
    if arg.len() > 0 && arg[0] == '@' {
        Some(arg.drop_first())
    } else {
        None
    }
}

/// What was read of `path`, first entry first: `None` when it was not read
/// yet, `Some(None)` when reading it failed.
pub open spec fn read_result(files: Seq<(String, Option<String>)>, path: Seq<char>) -> Option<Option<Seq<char>>>
    decreases files.len(),
{
    if files.len() == 0 {
        None
    } else if files[0].0@ == path {
        Some(opt_text(files[0].1))
    } else {
        read_result(files.drop_first(), path)
    }
}

/// The measure of the nesting depth: response files nest at most 8 deep.
pub open spec fn depth_measure(depth: int) -> int {
    if 0 <= depth <= 9 {
        9 - depth
    } else {
        0
    }
}

/// The arguments with response files expanded at nesting `depth`, given
/// what was read of each file: beyond depth 8 the arguments stand as they
/// are; a `@path` argument whose file was read is replaced by that file's
/// arguments, themselves expanded; one whose read failed stays. `Err` names
/// the first file needed that was not read yet.
pub open spec fn expand_spec(args: Seq<Seq<char>>, depth: int, files: Seq<(String, Option<String>)>) -> Result<Seq<Seq<char>>, Seq<char>>
    decreases depth_measure(depth), args.len() + 1,
{
    if depth > 8 || depth < 0 {
        Ok(args)
    } else {
        expand_from(args, args.len() as int, depth, files)
    }
}

/// The expansion of the first `k` arguments, at nesting `depth` (at most 8).
pub open spec fn expand_from(args: Seq<Seq<char>>, k: int, depth: int, files: Seq<(String, Option<String>)>) -> Result<Seq<Seq<char>>, Seq<char>>
    decreases depth_measure(depth), k,
{
    if k <= 0 || k > args.len() || depth > 8 || depth < 0 {
        Ok(Seq::empty())
    } else {
        match expand_from(args, k - 1, depth, files) {
            Err(p) => Err(p),
            Ok(prefix) => match response_path(args[k - 1]) {
                None => Ok(prefix.push(args[k - 1])),
                Some(path) => match read_result(files, path) {
                    None => Err(path),
                    Some(None) => Ok(prefix.push(args[k - 1])),
                    Some(Some(text)) => match expand_spec(split_command_spec(text), depth + 1, files) {
                        Err(p) => Err(p),
                        Ok(part) => Ok(prefix + part),
                    },
                },
            },
        }
    }
}

proof fn lemma_expand_err_stays(args: Seq<Seq<char>>, k: int, m: int, depth: int, files: Seq<(String, Option<String>)>, p: Seq<char>)
    requires
        0 <= k <= m <= args.len(),
        0 <= depth <= 8,
        expand_from(args, k, depth, files) == Err::<Seq<Seq<char>>, Seq<char>>(p),
    ensures
        expand_from(args, m, depth, files) == Err::<Seq<Seq<char>>, Seq<char>>(p),
    decreases m - k,
{
    if k < m {
        lemma_expand_err_stays(args, k, m - 1, depth, files, p);
    }
}

fn read_result_exec(files: &Vec<(String, Option<String>)>, path: &String) -> (r: Option<Option<String>>)
    ensures
        match r {
            None => read_result(files@, path@) is None,
            Some(x) => read_result(files@, path@) == Some(opt_text(x)),
        },
{
    let mut i: usize = 0;
    assert(files@.skip(0) =~= files@);
    while i < files.len()
        invariant
            i <= files@.len(),
            read_result(files@, path@) == read_result(files@.skip(i as int), path@),
        decreases files.len() - i,
    {
        proof {
            assert(files@.skip(i as int)[0] == files@[i as int]);
            assert(files@.skip(i as int).drop_first() =~= files@.skip(i + 1));
        }
        if files[i].0 == *path {
            return Some(files[i].1.clone());
        }
        i = i + 1;
    }
    None
}

/// The response-file path of an argument, if it is `@path`.
pub fn response_file_path(arg: &String) -> (r: Option<String>)
    ensures
        opt_text(r) == response_path(arg@),
{
    let cs = chars_of(arg.as_str());
    if cs.len() > 0 && cs[0] == '@' {
        Some(string_from(crate::text::slice_chars(cs.as_slice(), 1, cs.len()).as_slice()))
    } else {
        None
    }
}

fn push_strings(out: &mut Vec<String>, src: &Vec<String>)
    ensures
        texts(final(out)@) == texts(old(out)@) + texts(src@),
{
    let mut i: usize = 0;
    while i < src.len()
        invariant
            i <= src@.len(),
            texts(out@) == texts(old(out)@) + texts(src@).take(i as int),
        decreases src.len() - i,
    {
        let ghost b = texts(out@);
        out.push(src[i].clone());
        assert(texts(out@) =~= b.push(texts(src@)[i as int]));
        assert(texts(src@).take(i + 1) =~= texts(src@).take(i as int).push(texts(src@)[i as int]));
        assert(texts(out@) =~= texts(old(out)@) + texts(src@).take(i + 1));
        i = i + 1;
    }
    assert(texts(src@).take(src@.len() as int) =~= texts(src@));
}

/// The text of a result of string lists.
pub open spec fn expansion_view(r: Result<Vec<String>, String>) -> Result<Seq<Seq<char>>, Seq<char>> {
    match r {
        Ok(v) => Ok(texts(v@)),
        Err(p) => Err(p@),
    }
}

/// Expands `@path` response-file arguments at nesting `depth`, given what
/// was read of each file so far; `Err` names the next file to read.
pub fn expand_response_files(args: &Vec<String>, depth: u32, files: &Vec<(String, Option<String>)>) -> (r: Result<
    Vec<String>,
    String,
>)
    ensures
        expansion_view(r) == expand_spec(texts(args@), depth as int, files@),
    decreases depth_measure(depth as int),
{
    let mut out: Vec<String> = Vec::new();
    if depth > 8 {
        push_strings(&mut out, args);
        assert(texts(out@) =~= texts(args@));
        return Ok(out);
    }
    let ghost a = texts(args@);
    assert(texts(out@) =~= Seq::<Seq<char>>::empty());
    let mut i: usize = 0;
    while i < args.len()
        invariant
            depth <= 8,
            a == texts(args@),
            i <= args@.len(),
            expand_from(a, i as int, depth as int, files@) == Ok::<Seq<Seq<char>>, Seq<char>>(texts(out@)),
        decreases args.len() - i,
    {
        let ghost b = texts(out@);
        match response_file_path(&args[i]) {
            None => {
                out.push(args[i].clone());
                assert(texts(out@) =~= b.push(a[i as int]));
            },
            Some(path) => match read_result_exec(files, &path) {
                None => {
                    proof {
                        lemma_expand_err_stays(a, i + 1, a.len() as int, depth as int, files@, path@);
                    }
                    return Err(path);
                },
                Some(None) => {
                    out.push(args[i].clone());
                    assert(texts(out@) =~= b.push(a[i as int]));
                },
                Some(Some(text)) => {
                    let sub = split_command(text.as_str());
                    match expand_response_files(&sub, depth + 1, files) {
                        Err(p) => {
                            proof {
                                lemma_expand_err_stays(a, i + 1, a.len() as int, depth as int, files@, p@);
                            }
                            return Err(p);
                        },
                        Ok(part) => {
                            push_strings(&mut out, &part);
                        },
                    }
                },
            },
        }
        i = i + 1;
    }
    Ok(out)
}

/// The strings of `args` other than `x`, in order.
pub open spec fn without(args: Seq<Seq<char>>, x: Seq<char>) -> Seq<Seq<char>>
    decreases args.len(),
{
    if args.len() == 0 {
        Seq::empty()
    } else {
        without(args.drop_last(), x) + if args.last() == x {
            Seq::<Seq<char>>::empty()
        } else {
            seq![args.last()]
        }
    }
}

/// The arguments handed to the parser: the expanded arguments without the
/// source file itself, behind `--driver-mode=cl` for `clang-cl`, and
/// followed by `-ferror-limit=0`.
pub open spec fn parser_args(expanded: Seq<Seq<char>>, file: Seq<char>, is_cl: bool) -> Seq<Seq<char>> {
    (if is_cl {
        seq!["--driver-mode=cl"@]
    } else {
        Seq::empty()
    }) + without(expanded, file) + seq!["-ferror-limit=0"@]
}

/// Finishes a compile command's arguments for the parser.
pub fn finish_arguments(expanded: &Vec<String>, file: &String, is_cl: bool) -> (r: Vec<String>)
    ensures
        texts(r@) == parser_args(texts(expanded@), file@, is_cl),
{
    let mut out: Vec<String> = Vec::new();
    if is_cl {
        out.push(String::from_str("--driver-mode=cl"));
    }
    let ghost head = texts(out@);
    assert(head =~= (if is_cl { seq!["--driver-mode=cl"@] } else { Seq::<Seq<char>>::empty() }));
    let mut i: usize = 0;
    while i < expanded.len()
        invariant
            i <= expanded@.len(),
            head == (if is_cl { seq!["--driver-mode=cl"@] } else { Seq::<Seq<char>>::empty() }),
            texts(out@) == head + without(texts(expanded@).take(i as int), file@),
        decreases expanded.len() - i,
    {
        let ghost b = texts(out@);
        proof {
            assert(texts(expanded@).take(i + 1).drop_last() =~= texts(expanded@).take(i as int));
        }
        if expanded[i] != *file {
            out.push(expanded[i].clone());
            assert(texts(out@) =~= b.push(texts(expanded@)[i as int]));
        }
        assert(texts(out@) =~= head + without(texts(expanded@).take(i + 1), file@));
        i = i + 1;
    }
    assert(texts(expanded@).take(expanded@.len() as int) =~= texts(expanded@));
    let ghost b = texts(out@);
    out.push(String::from_str("-ferror-limit=0"));
    assert(texts(out@) =~= b.push("-ferror-limit=0"@));
    out
}


// ---- Worker pool size -------------------------------------------------------------------

/// The value of a string of decimal digits.
pub open spec fn digits_value(s: Seq<char>) -> int
    decreases s.len(),
{
    if s.len() == 0 {
        0
    } else {
        digits_value(s.drop_last()) * 10 + (s.last() as int - '0' as int)
    }
}

/// Every character of `s` is an ASCII digit.
pub open spec fn all_digits(s: Seq<char>) -> bool {
    forall|i: int| 0 <= i < s.len() ==> '0' <= #[trigger] s[i] && s[i] <= '9'
}

/// `s` without one leading `+`.
pub open spec fn unsigned_digits(s: Seq<char>) -> Seq<char> {
    if s.len() > 0 && s[0] == '+' {
        s.drop_first()
    } else {
        s
    }
}

/// What `usize::from_str` accepts: an optional `+` and then one or more
/// ASCII digits whose value fits in `usize`.
pub open spec fn parse_usize_spec(s: Seq<char>) -> Option<usize> {
    let d = unsigned_digits(s);
    if d.len() > 0 && all_digits(d) && digits_value(d) <= usize::MAX {
        Some(digits_value(d) as usize)
    } else {
        None
    }
}

proof fn lemma_digits_grow(s: Seq<char>, k: int)
    requires
        all_digits(s),
        0 <= k <= s.len(),
    ensures
        0 <= digits_value(s.take(k)) <= digits_value(s),
    decreases s.len(),
{
    if s.len() > 0 {
        if k == s.len() {
            assert(s.take(k) =~= s);
            lemma_digits_grow(s.drop_last(), 0);
        } else {
            assert(s.take(k) =~= s.drop_last().take(k));
            lemma_digits_grow(s.drop_last(), k);
        }
        let p = digits_value(s.drop_last());
        let d = s.last() as int - '0' as int;
        assert(0 <= d);
        assert(p <= p * 10 + d) by (nonlinear_arith)
            requires
                0 <= p,
                0 <= d,
        ;
    } else {
        assert(s.take(k) =~= s);
    }
}

/// Parses a decimal `usize` as `usize::from_str` does.
pub fn parse_usize(s: &str) -> (r: Option<usize>)
    ensures
        r == parse_usize_spec(s@),
{
    let cs = chars_of(s);
    let start: usize = if cs.len() > 0 && cs[0] == '+' {
        1
    } else {
        0
    };
    let ghost d = unsigned_digits(s@);
    assert(d =~= cs@.subrange(start as int, cs@.len() as int));
    if start == cs.len() {
        return None;
    }
    let mut acc: usize = 0;
    let mut i: usize = start;
    assert(d.take(0) =~= Seq::<char>::empty());
    while i < cs.len()
        invariant
            cs@ == s@,
            start <= i <= cs@.len(),
            d == cs@.subrange(start as int, cs@.len() as int),
            d == unsigned_digits(s@),
            all_digits(d.take(i - start)),
            acc as int == digits_value(d.take(i - start)),
        decreases cs.len() - i,
    {
        let c = cs[i];
        let ghost k = i - start;
        proof {
            assert(d[k] == c);
            assert(d.take(k + 1).drop_last() =~= d.take(k));
            assert(d.take(k + 1).last() == c);
        }
        if c < '0' || c > '9' {
            assert(!all_digits(d)) by {
                assert(!('0' <= d[k] && d[k] <= '9'));
            }
            return None;
        }
        let dv = ((c as u32) - ('0' as u32)) as usize;
        assert(digits_value(d.take(k + 1)) == acc as int * 10 + dv as int);
        proof {
            assert forall|j: int| 0 <= j < d.take(k + 1).len() implies '0' <= #[trigger] d.take(k + 1)[j] && d.take(k + 1)[j] <= '9' by {
                if j < k {
                    assert(d.take(k + 1)[j] == d.take(k)[j]);
                }
            }
        }
        match acc.checked_mul(10) {
            None => {
                proof {
                    if all_digits(d) {
                        lemma_digits_grow(d, k + 1);
                        assert(digits_value(d) > usize::MAX);
                    }
                }
                return None;
            },
            Some(m) => match m.checked_add(dv) {
                None => {
                    proof {
                        if all_digits(d) {
                            lemma_digits_grow(d, k + 1);
                            assert(digits_value(d) > usize::MAX);
                        }
                    }
                    return None;
                },
                Some(v) => {
                    acc = v;
                },
            },
        }
        i = i + 1;
    }
    proof {
        assert(d.take(cs@.len() - start) =~= d);
    }
    Some(acc)
}

/// How many worker processes to run: `DRIFT_UNREAL_JOBS` when it holds a
/// positive number, else the machine's available parallelism, else 4.
pub open spec fn job_count_spec(env: Option<Seq<char>>, available: Option<usize>) -> usize {
    let fallback: usize = match available {
        Some(n) => n,
        None => 4,
    };
    match env {
        Some(v) => match parse_usize_spec(v) {
            Some(n) => if n > 0 {
                n
            } else {
                fallback
            },
            None => fallback,
        },
        None => fallback,
    }
}

/// The number of concurrent worker processes, from the value of
/// `DRIFT_UNREAL_JOBS` (if set) and the machine's available parallelism (if
/// known).
pub fn worker_job_count(env: &Option<String>, available: Option<usize>) -> (r: usize)
    ensures
        r == job_count_spec(opt_text(*env), available),
{
    let fallback: usize = match available {
        Some(n) => n,
        None => 4,
    };
    match env {
        Some(v) => match parse_usize(v.as_str()) {
            Some(n) => if n > 0 {
                n
            } else {
                fallback
            },
            None => fallback,
        },
        None => fallback,
    }
}

/// The pool size for `commands` translation units: the job count, but no
/// more threads than units (and at least one).
pub fn pool_size(jobs: usize, commands: usize) -> (r: usize)
    ensures
        r == (if commands == 0 {
            if jobs < 1 { jobs } else { 1 }
        } else if jobs < commands {
            jobs
        } else {
            commands
        }),
{
    let cap = if commands == 0 {
        1
    } else {
        commands
    };
    if jobs < cap {
        jobs
    } else {
        cap
    }
}


// ---- Laws ----------------------------------------------------------------------------

/// The float rule is opt-in: with no roots configured a run reports exactly
/// the units' unconditional findings.
pub proof fn law_float_opt_in(config: Config, outs: Seq<Option<WorkerOutput>>)
    requires
        config.tick_reachable_roots@.len() == 0,
    ensures
        unreal_collected(config, outs) == outputs_findings(outs, outs.len() as int),
{
    assert(unreal_collected(config, outs) =~= outputs_findings(outs, outs.len() as int));
}

/// Every float finding a run keeps lies in a function that is reachable and
/// not exempt.
pub proof fn law_float_only_reachable_unexempt(
    cands: Seq<(Seq<char>, FindingView)>,
    k: int,
    reach: spec_fn(Seq<char>) -> bool,
    exempt: Seq<Seq<char>>,
)
    requires
        0 <= k <= cands.len(),
    ensures
        forall|m: int|
            0 <= m < kept_candidates(cands, k, reach, exempt).len() ==> exists|i: int|
                0 <= i < k && cands[i].1 == #[trigger] kept_candidates(cands, k, reach, exempt)[m] && reach(cands[i].0)
                    && !exempt.contains(cands[i].0),
    decreases k,
{
    if k > 0 {
        law_float_only_reachable_unexempt(cands, k - 1, reach, exempt);
        let prev = kept_candidates(cands, k - 1, reach, exempt);
        let cur = kept_candidates(cands, k, reach, exempt);
        assert forall|m: int| 0 <= m < cur.len() implies exists|i: int|
            0 <= i < k && cands[i].1 == #[trigger] cur[m] && reach(cands[i].0) && !exempt.contains(cands[i].0) by {
            if m < prev.len() {
                assert(cur[m] == prev[m]);
                let i = choose|i: int|
                    0 <= i < k - 1 && cands[i].1 == #[trigger] prev[m] && reach(cands[i].0) && !exempt.contains(cands[i].0);
            } else {
                assert(cur[m] == cands[k - 1].1);
            }
        }
    }
}

/// Arguments that name no response file are left as they are.
pub proof fn law_expand_without_response_files(args: Seq<Seq<char>>, depth: int, files: Seq<(String, Option<String>)>)
    requires
        forall|i: int| 0 <= i < args.len() ==> response_path(#[trigger] args[i]) is None,
    ensures
        expand_spec(args, depth, files) == Ok::<Seq<Seq<char>>, Seq<char>>(args),
{
    if 0 <= depth <= 8 {
        lemma_expand_plain_prefix(args, args.len() as int, depth, files);
        assert(args.take(args.len() as int) =~= args);
    }
}

proof fn lemma_expand_plain_prefix(args: Seq<Seq<char>>, k: int, depth: int, files: Seq<(String, Option<String>)>)
    requires
        0 <= k <= args.len(),
        0 <= depth <= 8,
        forall|i: int| 0 <= i < args.len() ==> response_path(#[trigger] args[i]) is None,
    ensures
        expand_from(args, k, depth, files) == Ok::<Seq<Seq<char>>, Seq<char>>(args.take(k)),
    decreases k,
{
    if k == 0 {
        assert(args.take(0) =~= Seq::<Seq<char>>::empty());
    } else {
        lemma_expand_plain_prefix(args, k - 1, depth, files);
        assert(response_path(args[k - 1]) is None);
        assert(args.take(k - 1).push(args[k - 1]) =~= args.take(k));
    }
}


/// A run's report depends only on the configuration and the units'
/// outputs listed by command: how many workers ran and the order they
/// finished in never reach it, so any two reports of the same outputs
/// agree (the same findings in the same order, the same counts, the same
/// call edges).
pub proof fn law_report_independent_of_scheduling(
    config: Config,
    outputs: Seq<Option<WorkerOutput>>,
    r1: UnrealReport,
    r2: UnrealReport,
)
    requires
        report_of_outputs(config, outputs, r1),
        report_of_outputs(config, outputs, r2),
    ensures
        views(r1.findings@) == views(r2.findings@),
        r1.units_parsed == r2.units_parsed,
        cand_views(r1.candidates@) == cand_views(r2.candidates@),
        forall|p: (Seq<char>, Seq<char>)|
            #![trigger pairs_view(r1.edges@).contains(p)]
            pairs_view(r1.edges@).contains(p) <==> pairs_view(r2.edges@).contains(p),
{
    crate::findings::law_sorted_dedup_unique(unreal_collected(config, outputs), views(r1.findings@), views(r2.findings@));
    assert forall|p: (Seq<char>, Seq<char>)| #[trigger] pairs_view(r1.edges@).contains(p) <==> pairs_view(r2.edges@).contains(p) by {
        assert(pairs_view(r1.edges@).contains(p) <==> outputs_edges(outputs, outputs.len() as int).contains(p));
        assert(pairs_view(r2.edges@).contains(p) <==> outputs_edges(outputs, outputs.len() as int).contains(p));
    }
}

proof fn lemma_kept_holds(
    cands: Seq<(Seq<char>, FindingView)>,
    m: int,
    k: int,
    reach: spec_fn(Seq<char>) -> bool,
    exempt: Seq<Seq<char>>,
)
    requires
        0 <= k < m <= cands.len(),
        reach(cands[k].0),
        !exempt.contains(cands[k].0),
    ensures
        kept_candidates(cands, m, reach, exempt).contains(cands[k].1),
    decreases m,
{
    let rest = if reach(cands[m - 1].0) && !exempt.contains(cands[m - 1].0) {
        seq![cands[m - 1].1]
    } else {
        Seq::empty()
    };
    if k < m - 1 {
        lemma_kept_holds(cands, m - 1, k, reach, exempt);
    } else {
        assert(rest[0] == cands[k].1);
    }
    crate::findings::lemma_contains_concat(kept_candidates(cands, m - 1, reach, exempt), rest, cands[k].1);
}

/// With roots configured, every tagged float finding the units produced
/// whose function is reachable from a root over the call edges of all
/// units, and is not listed in `fixed_step_functions`, is collected, and
/// its place and rule are in the report.
pub proof fn law_reachable_float_reported(config: Config, outputs: Seq<Option<WorkerOutput>>, r: UnrealReport, k: int)
    requires
        report_of_outputs(config, outputs, r),
        config.tick_reachable_roots@.len() > 0,
        0 <= k < r.candidates@.len(),
        name_reachable(
            outputs_edges(outputs, outputs.len() as int),
            texts(config.tick_reachable_roots@),
            cand_views(r.candidates@)[k].0,
        ),
        !texts(config.fixed_step_functions@).contains(cand_views(r.candidates@)[k].0),
    ensures
        unreal_collected(config, outputs).contains(cand_views(r.candidates@)[k].1),
        crate::findings::key_in(views(r.findings@), crate::findings::view_key(cand_views(r.candidates@)[k].1)),
{
    let cands = outputs_candidates(outputs, outputs.len() as int);
    let reach = unreal_reach(config, outputs);
    let exempt = texts(config.fixed_step_functions@);
    assert(cands[k] == cand_views(r.candidates@)[k]);
    assert(reach(cands[k].0));
    lemma_kept_holds(cands, cands.len() as int, k, reach, exempt);
    crate::findings::lemma_contains_concat(
        outputs_findings(outputs, outputs.len() as int),
        kept_candidates(cands, cands.len() as int, reach, exempt),
        cands[k].1,
    );
    crate::findings::law_collected_reported(unreal_collected(config, outputs), views(r.findings@), cands[k].1);
}

/// Every configured root counts as reachable: float arithmetic in a root's
/// own body is reported unless the root is listed in
/// `fixed_step_functions`.
pub proof fn law_root_float_reported(config: Config, outputs: Seq<Option<WorkerOutput>>, r: UnrealReport, k: int)
    requires
        report_of_outputs(config, outputs, r),
        0 <= k < r.candidates@.len(),
        texts(config.tick_reachable_roots@).contains(cand_views(r.candidates@)[k].0),
        !texts(config.fixed_step_functions@).contains(cand_views(r.candidates@)[k].0),
    ensures
        unreal_collected(config, outputs).contains(cand_views(r.candidates@)[k].1),
        crate::findings::key_in(views(r.findings@), crate::findings::view_key(cand_views(r.candidates@)[k].1)),
{
    let roots = texts(config.tick_reachable_roots@);
    let owner = cand_views(r.candidates@)[k].0;
    let i = choose|i: int| 0 <= i < roots.len() && roots[i] == owner;
    crate::reach::law_name_root_reachable(outputs_edges(outputs, outputs.len() as int), roots, i);
    law_reachable_float_reported(config, outputs, r, k);
}

proof fn lemma_trim_end_keeps_prefix(s: Seq<char>, p: Seq<char>)
    requires
        p.len() > 0,
        has_prefix(s, p),
        !is_ws(p.last()),
    ensures
        has_prefix(trim_end(s), p),
    decreases s.len(),
{
    if s.len() > 0 && is_ws(s.last()) {
        if s.len() == p.len() {
            assert(s.last() == s.take(p.len() as int)[p.len() - 1]);
        }
        assert(s.drop_last().take(p.len() as int) =~= s.take(p.len() as int));
        lemma_trim_end_keeps_prefix(s.drop_last(), p);
    }
}

/// A type spelled `TMap<...>` or `TSet<...>` is taken for a hash-backed
/// container.
pub proof fn law_map_or_set_spelling(t: Seq<char>)
    requires
        has_prefix(t, "TMap<"@) || has_prefix(t, "TSet<"@),
    ensures
        is_map_or_set_spec(t),
{
    reveal_strlit("TMap<");
    reveal_strlit("TSet<");
    reveal_strlit("const ");
    let p = if has_prefix(t, "TMap<"@) { "TMap<"@ } else { "TSet<"@ };
    assert(t[0] == t.take(5)[0]);
    assert(t[0] == 'T');
    if t.len() >= 6 {
        assert(t.take(6)[0] == t[0]);
        assert(t.take(6) != "const "@) by {
            assert("const "@[0] == 'c');
        }
    }
    assert(strip_repeated_prefix(t, "const "@) == t);
    assert(trim_start(t) == t);
    lemma_trim_end_keeps_prefix(t, p);
}

} // verus!
