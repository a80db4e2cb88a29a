use vstd::prelude::*;
use vstd::string::*;
use crate::findings::{Finding, FindingView, views, lemma_contains_concat};
use crate::text::{chars_of, in_list, chars_to_string, string_from, starts_with, has_prefix, slice_chars};
use crate::unreal::{is_map_or_set_spec, is_map_or_set_type, pointer_width_names, is_pointer_width_type};
use crate::reach::{pairs_view, pair_listed, push_distinct_pairs};
use crate::config::Config;

verus! {

// ---- The entity model ----------------------------------------------------------

/// The libclang entity kinds the rules look at.
#[derive(PartialEq, Eq, Structural, Clone, Copy)]
pub enum CxKind {
    CallExpr,
    BinaryOperator,
    CompoundAssignOperator,
    ForRangeStmt,
    MemberRefExpr,
    FieldDecl,
    FunctionDecl,
    Method,
    Constructor,
    Destructor,
    FunctionTemplate,
    ClassDecl,
    StructDecl,
    Namespace,
    ClassTemplate,
    Other,
}

/// A semantic parent: its kind and name.
pub struct CxScope {
    pub kind: CxKind,
    pub name: Option<String>,
}

/// A declaration an entity refers to: its name and its semantic parents,
/// nearest first.
pub struct CxDecl {
    pub name: Option<String>,
    pub semantic_parents: Vec<CxScope>,
}

/// A token of an entity's source range: its spelling and the byte offset
/// of its spelling location.
pub struct CxToken {
    pub spelling: String,
    pub offset: u32,
}

/// An entity's source range: file, line and column of its start, and the
/// byte offsets of its start and end.
pub struct CxRange {
    pub file: String,
    pub line: u32,
    pub column: u32,
    pub start: u32,
    pub end: u32,
}

/// An entity of a parsed translation unit, with what the rules read of it:
/// its kind, name and semantic parents (nearest first), the display name of
/// its type, its source range, the tokens of that range (listed for calls
/// and binary and compound-assignment operators, the entities whose tokens
/// the rules read), whether it is a definition, the declaration it refers
/// to, the declarations of its parameters' (pointee) types, and its
/// children.
pub struct CxEntity {
    pub kind: CxKind,
    pub name: Option<String>,
    pub semantic_parents: Vec<CxScope>,
    pub type_spelling: Option<String>,
    pub range: Option<CxRange>,
    pub tokens: Vec<CxToken>,
    pub is_definition: bool,
    pub reference: Option<CxDecl>,
    pub arguments: Option<Vec<Option<CxDecl>>>,
    pub children: Vec<CxEntity>,
}

// ---- Qualified names -------------------------------------------------------------

/// The kinds whose names qualify the names declared inside them.
pub open spec fn class_like(k: CxKind) -> bool {
    k == CxKind::ClassDecl || k == CxKind::StructDecl || k == CxKind::Namespace || k == CxKind::ClassTemplate
}

fn class_like_exec(k: CxKind) -> (r: bool)
    ensures
        r == class_like(k),
{
    k == CxKind::ClassDecl || k == CxKind::StructDecl || k == CxKind::Namespace || k == CxKind::ClassTemplate
}

/// The `A::B::` prefix the unbroken run of class, struct, namespace and
/// class-template parents from position `i` on gives a name (unnamed ones
/// add nothing).
pub open spec fn scope_prefix(parents: Seq<CxScope>, i: int) -> Seq<char>
    decreases parents.len() - i,
{
    if i < 0 || i >= parents.len() || !class_like(parents[i].kind) {
        Seq::empty()
    } else {
        scope_prefix(parents, i + 1) + match parents[i].name {
            Some(n) => n@ + "::"@,
            None => Seq::empty(),
        }
    }
}

/// The qualified name of a declaration named `name` whose semantic parents
/// are those of `parents` from position `from` on (`<anon>` when it has no
/// name).
pub open spec fn qualified_at(name: Option<String>, parents: Seq<CxScope>, from: int) -> Seq<char> {
    scope_prefix(parents, from) + match name {
        Some(n) => n@,
        None => "<anon>"@,
    }
}

/// The qualified name of a declaration (`<anon>` when it has no name).
pub open spec fn qualified(name: Option<String>, parents: Seq<CxScope>) -> Seq<char> {
    qualified_at(name, parents, 0)
}

/// The qualified name of a declaration from its name and semantic parents.
pub fn qualified_name(name: &Option<String>, parents: &Vec<CxScope>) -> (r: String)
    ensures
        r@ == qualified(*name, parents@),
{
    qualified_name_at(name, parents, 0)
}

/// The qualified name of a declaration whose semantic parents are those of
/// `parents` from position `from` on.
pub fn qualified_name_at(name: &Option<String>, parents: &Vec<CxScope>, from: usize) -> (r: String)
    requires
        from <= parents@.len(),
    ensures
        r@ == qualified_at(*name, parents@, from as int),
{
    let mut k: usize = from;
    while k < parents.len() && class_like_exec(parents[k].kind)
        invariant
            from <= k <= parents@.len(),
            forall|j: int| from <= j < k ==> class_like(#[trigger] parents@[j].kind),
        decreases parents.len() - k,
    {
        k = k + 1;
    }
    let mut acc = String::new();
    let mut i: usize = k;
    while i > from
        invariant
            from <= i <= k <= parents@.len(),
            forall|j: int| from <= j < k ==> class_like(#[trigger] parents@[j].kind),
            k == parents@.len() || !class_like(parents@[k as int].kind),
            acc@ == scope_prefix(parents@, i as int),
        decreases i,
    {
        i = i - 1;
        match &parents[i].name {
            Some(n) => {
                acc.append(n.as_str());
                acc.append("::");
            },
            None => {},
        }
        proof {
            assert(class_like(parents@[i as int].kind));
        }
    }
    match name {
        Some(n) => acc.append(n.as_str()),
        None => acc.append("<anon>"),
    }
    acc
}

// ---- Spellings -------------------------------------------------------------------

/// The concatenated spellings of the tokens before the first `(`.
pub open spec fn upto_paren(toks: Seq<CxToken>) -> Seq<char>
    decreases toks.len(),
{
    if toks.len() == 0 || toks[0].spelling@ == "("@ {
        Seq::empty()
    } else {
        toks[0].spelling@ + upto_paren(toks.drop_first())
    }
}

/// The callee of a call as written at the call site (`FMath::FRand`): its
/// tokens up to the opening parenthesis; none when it has no source range.
pub open spec fn call_spelling(e: CxEntity) -> Option<Seq<char>> {
    if e.range is Some {
        Some(upto_paren(e.tokens@))
    } else {
        None
    }
}

/// The text of an optional string.
pub open spec fn opt_text(o: Option<String>) -> Option<Seq<char>> {
    match o {
        Some(s) => Some(s@),
        None => None,
    }
}

/// The callee spelling of a call as written at the call site.
pub fn call_site_spelling(e: &CxEntity) -> (r: Option<String>)
    ensures
        opt_text(r) == call_spelling(*e),
{
    if e.range.is_none() {
        return None;
    }
    let paren = String::from_str("(");
    let mut acc = String::new();
    let mut i: usize = 0;
    assert(e.tokens@.skip(0) =~= e.tokens@);
    while i < e.tokens.len()
        invariant_except_break
            i <= e.tokens@.len(),
            paren@ == "("@,
            upto_paren(e.tokens@) == acc@ + upto_paren(e.tokens@.skip(i as int)),
        ensures
            acc@ == upto_paren(e.tokens@),
        decreases e.tokens.len() - i,
    {
        let ghost rest = e.tokens@.skip(i as int);
        proof {
            assert(rest[0] == e.tokens@[i as int]);
            assert(rest.drop_first() =~= e.tokens@.skip(i + 1));
        }
        if e.tokens[i].spelling == paren {
            assert(upto_paren(rest) == Seq::<char>::empty());
            assert(acc@ + Seq::<char>::empty() =~= acc@);
            break;
        }
        let ghost a0 = acc@;
        acc.append(e.tokens[i].spelling.as_str());
        assert(a0 + upto_paren(rest) =~= acc@ + upto_paren(e.tokens@.skip(i + 1)));
        i = i + 1;
    }
    proof {
        if i == e.tokens@.len() {
            assert(e.tokens@.skip(i as int) =~= Seq::<CxToken>::empty());
        }
    }
    Some(acc)
}

/// The spelling of the first token at an offset in `lo..hi`.
pub open spec fn first_between(toks: Seq<CxToken>, lo: u32, hi: u32) -> Option<Seq<char>>
    decreases toks.len(),
{
    if toks.len() == 0 {
        None
    } else if lo <= toks[0].offset && toks[0].offset < hi {
        Some(toks[0].spelling@)
    } else {
        first_between(toks.drop_first(), lo, hi)
    }
}

/// The operator of a binary or compound-assignment operator entity: the
/// token between its two operands' source ranges.
pub open spec fn operator_spelling(e: CxEntity) -> Option<Seq<char>> {
    if e.children@.len() != 2 {
        None
    } else {
        match (e.children@[0].range, e.children@[1].range, e.range) {
            (Some(l), Some(r), Some(_)) => first_between(e.tokens@, l.end, r.start),
            _ => None,
        }
    }
}

/// The operator token of a binary-operator entity.
pub fn binary_operator_spelling(e: &CxEntity) -> (r: Option<String>)
    ensures
        opt_text(r) == operator_spelling(*e),
{
    if e.children.len() != 2 {
        return None;
    }
    let lhs_end = match &e.children[0].range {
        Some(l) => l.end,
        None => return None,
    };
    let rhs_start = match &e.children[1].range {
        Some(r) => r.start,
        None => return None,
    };
    if e.range.is_none() {
        return None;
    }
    let mut i: usize = 0;
    assert(e.tokens@.skip(0) =~= e.tokens@);
    while i < e.tokens.len()
        invariant
            i <= e.tokens@.len(),
            operator_spelling(*e) == first_between(e.tokens@.skip(i as int), lhs_end, rhs_start),
        decreases e.tokens.len() - i,
    {
        proof {
            assert(e.tokens@.skip(i as int)[0] == e.tokens@[i as int]);
            assert(e.tokens@.skip(i as int).drop_first() =~= e.tokens@.skip(i + 1));
        }
        let off = e.tokens[i].offset;
        if lhs_end <= off && off < rhs_start {
            return Some(e.tokens[i].spelling.clone());
        }
        i = i + 1;
    }
    None
}

// ---- Findings ----------------------------------------------------------------------

/// A finding at the start of an entity's source range; none without a range.
pub open spec fn located(e: CxEntity, rule: Seq<char>, message: Seq<char>) -> Seq<FindingView> {
    match e.range {
        Some(r) => seq![FindingView { file: r.file@, line: r.line, column: r.column, rule, message }],
        None => Seq::empty(),
    }
}

fn push_located(e: &CxEntity, rule: String, message: String, out: &mut Vec<Finding>)
    ensures
        views(final(out)@) == views(old(out)@) + located(*e, rule@, message@),
{
    match &e.range {
        Some(r) => {
            out.push(Finding { file: r.file.clone(), line: r.line, column: r.column, rule, message });
            assert(views(out@) =~= views(old(out)@) + located(*e, rule@, message@));
        },
        None => {
            assert(views(out@) =~= views(old(out)@) + located(*e, rule@, message@));
        },
    }
}


// ---- Call-site rules -----------------------------------------------------------------

/// The calls read Unreal's global RNG.
pub open spec fn unseeded_rng_funcs() -> Seq<Seq<char>> {
    seq![
        "FMath::Rand"@,
        "FMath::RandRange"@,
        "FMath::RandHelper"@,
        "FMath::FRand"@,
        "FMath::FRandRange"@,
        "FMath::RandBool"@,
        "FMath::VRand"@,
        "FMath::VRandCone"@,
        "FMath::VRandCone2D"@,
    ]
}

/// The calls that read wall-clock or OS time.
pub open spec fn wallclock_read_funcs() -> Seq<Seq<char>> {
    seq![
        "FPlatformTime::Seconds"@,
        "FPlatformTime::Cycles"@,
        "FPlatformTime::Cycles64"@,
        "FDateTime::Now"@,
        "FDateTime::UtcNow"@,
    ]
}

/// The calls that dispatch unordered parallel work.
pub open spec fn unordered_parallelism_funcs() -> Seq<Seq<char>> {
    seq!["ParallelFor"@, "ParallelForWithTaskContext"@, "UE::Tasks::Launch"@]
}

/// The three rules that match a call by its call-site spelling.
#[derive(PartialEq, Eq, Structural, Clone, Copy)]
pub enum CallRule {
    UnseededRng,
    WallclockRead,
    UnorderedParallelism,
}

/// The spellings a call rule matches.
pub open spec fn call_rule_funcs(r: CallRule) -> Seq<Seq<char>> {
    match r {
        CallRule::UnseededRng => unseeded_rng_funcs(),
        CallRule::WallclockRead => wallclock_read_funcs(),
        CallRule::UnorderedParallelism => unordered_parallelism_funcs(),
    }
}

/// The name a call rule reports under.
pub open spec fn call_rule_name(r: CallRule) -> Seq<char> {
    match r {
        CallRule::UnseededRng => "unseeded_rng"@,
        CallRule::WallclockRead => "wallclock_read"@,
        CallRule::UnorderedParallelism => "unordered_parallelism"@,
    }
}

/// What follows the callee's spelling in a call rule's message.
pub open spec fn call_rule_tail(r: CallRule) -> Seq<char> {
    match r {
        CallRule::UnseededRng => "() reads Unreal's global RNG, which is not seeded deterministically by default; differs per peer/run"@,
        CallRule::WallclockRead => "() reads wallclock/OS time, which differs per peer/run; do not fold it into simulated state"@,
        CallRule::UnorderedParallelism => "() dispatches unordered parallel work; folding its results into simulated state without a deterministic reduction can desync across peers"@,
    }
}

/// A callee spelling without its `FMath::` class qualifier.
pub open spec fn without_fmath(s: Seq<char>) -> Seq<char> {
    if has_prefix(s, "FMath::"@) {
        s.skip(7)
    } else {
        s
    }
}

/// The callee a call rule's message names: the RNG function by its own name
/// (`FRand` for `FMath::FRand`), other calls as spelled at the call site.
pub open spec fn call_rule_subject(r: CallRule, s: Seq<char>) -> Seq<char> {
    match r {
        CallRule::UnseededRng => without_fmath(s),
        _ => s,
    }
}

/// The finding a call rule draws on the entity itself, if any.
pub open spec fn call_hit(e: CxEntity, r: CallRule) -> Seq<FindingView> {
    if e.kind == CxKind::CallExpr {
        match call_spelling(e) {
            Some(s) => if call_rule_funcs(r).contains(s) {
                located(e, call_rule_name(r), call_rule_subject(r, s) + call_rule_tail(r))
            } else {
                Seq::empty()
            },
            None => Seq::empty(),
        }
    } else {
        Seq::empty()
    }
}

/// The findings a call rule draws in a subtree, in pre-order.
pub open spec fn call_findings(e: CxEntity, r: CallRule) -> Seq<FindingView>
    decreases e, 1int,
{
    call_hit(e, r) + call_findings_in(e.children@, e.children@.len() as int, r)
}

/// The findings a call rule draws in the first `k` of the subtrees `cs`.
pub open spec fn call_findings_in(cs: Seq<CxEntity>, k: int, r: CallRule) -> Seq<FindingView>
    decreases cs, k,
{
    if k <= 0 || k > cs.len() {
        Seq::empty()
    } else {
        call_findings_in(cs, k - 1, r) + call_findings(cs[k - 1], r)
    }
}

fn call_rule_matches(s: &String, r: CallRule) -> (b: bool)
    ensures
        b == call_rule_funcs(r).contains(s@),
{
    let cs = chars_of(s.as_str());
    match r {
        CallRule::UnseededRng => {
            let list: Vec<&str> = vec![
                "FMath::Rand",
                "FMath::RandRange",
                "FMath::RandHelper",
                "FMath::FRand",
                "FMath::FRandRange",
                "FMath::RandBool",
                "FMath::VRand",
                "FMath::VRandCone",
                "FMath::VRandCone2D",
            ];
            in_list(cs.as_slice(), &list, Ghost(unseeded_rng_funcs()))
        },
        CallRule::WallclockRead => {
            let list: Vec<&str> = vec![
                "FPlatformTime::Seconds",
                "FPlatformTime::Cycles",
                "FPlatformTime::Cycles64",
                "FDateTime::Now",
                "FDateTime::UtcNow",
            ];
            in_list(cs.as_slice(), &list, Ghost(wallclock_read_funcs()))
        },
        CallRule::UnorderedParallelism => {
            let list: Vec<&str> = vec!["ParallelFor", "ParallelForWithTaskContext", "UE::Tasks::Launch"];
            in_list(cs.as_slice(), &list, Ghost(unordered_parallelism_funcs()))
        },
    }
}

fn call_rule_report(s: &String, r: CallRule) -> (m: (String, String))
    ensures
        m.0@ == call_rule_name(r),
        m.1@ == call_rule_subject(r, s@) + call_rule_tail(r),
{
    let cs = chars_of(s.as_str());
    let fmath = chars_of("FMath::");
    proof {
        reveal_strlit("FMath::");
    }
    let mut msg = if r == CallRule::UnseededRng && starts_with(cs.as_slice(), fmath.as_slice()) {
        string_from(slice_chars(cs.as_slice(), 7, cs.len()).as_slice())
    } else {
        s.clone()
    };
    proof {
        if r == CallRule::UnseededRng && has_prefix(s@, "FMath::"@) {
            assert(s@.subrange(7, s@.len() as int) =~= s@.skip(7));
        }
    }
    match r {
        CallRule::UnseededRng => {
            msg.append("() reads Unreal's global RNG, which is not seeded deterministically by default; differs per peer/run");
            (String::from_str("unseeded_rng"), msg)
        },
        CallRule::WallclockRead => {
            msg.append("() reads wallclock/OS time, which differs per peer/run; do not fold it into simulated state");
            (String::from_str("wallclock_read"), msg)
        },
        CallRule::UnorderedParallelism => {
            msg.append("() dispatches unordered parallel work; folding its results into simulated state without a deterministic reduction can desync across peers");
            (String::from_str("unordered_parallelism"), msg)
        },
    }
}

fn scan_calls(e: &CxEntity, r: CallRule, out: &mut Vec<Finding>)
    ensures
        views(final(out)@) == views(old(out)@) + call_findings(*e, r),
    decreases e,
{
    let ghost start = views(old(out)@);
    if e.kind == CxKind::CallExpr {
        match call_site_spelling(e) {
            Some(s) => {
                if call_rule_matches(&s, r) {
                    let (rule, msg) = call_rule_report(&s, r);
                    push_located(e, rule, msg, out);
                }
            },
            None => {},
        }
    }
    assert(views(out@) == start + call_hit(*e, r));
    let mut i: usize = 0;
    while i < e.children.len()
        invariant
            i <= e.children@.len(),
            views(out@) == start + call_hit(*e, r) + call_findings_in(e.children@, i as int, r),
        decreases e.children.len() - i,
    {
        let ghost before = views(out@);
        scan_calls(&e.children[i], r, out);
        proof {
            assert(call_findings_in(e.children@, i + 1, r) == call_findings_in(e.children@, i as int, r)
                + call_findings(e.children@[i as int], r));
            assert(views(out@) =~= start + call_hit(*e, r) + call_findings_in(e.children@, i + 1, r));
        }
        i = i + 1;
    }
}

/// Flags calls that read Unreal's global RNG (`FMath::Rand` and kin).
pub fn scan_unseeded_rng(root: &CxEntity, out: &mut Vec<Finding>)
    ensures
        views(final(out)@) == views(old(out)@) + call_findings(*root, CallRule::UnseededRng),
{
    scan_calls(root, CallRule::UnseededRng, out)
}

/// Flags wall-clock reads (`FPlatformTime::Seconds`, `FDateTime::Now` and kin).
pub fn scan_wallclock_read(root: &CxEntity, out: &mut Vec<Finding>)
    ensures
        views(final(out)@) == views(old(out)@) + call_findings(*root, CallRule::WallclockRead),
{
    scan_calls(root, CallRule::WallclockRead, out)
}

/// Flags unordered parallel dispatch (`ParallelFor`, `UE::Tasks::Launch`).
pub fn scan_unordered_parallelism(root: &CxEntity, out: &mut Vec<Finding>)
    ensures
        views(final(out)@) == views(old(out)@) + call_findings(*root, CallRule::UnorderedParallelism),
{
    scan_calls(root, CallRule::UnorderedParallelism, out)
}


// ---- TMap/TSet iteration -------------------------------------------------------------

/// The entity's type is a `TMap`/`TSet`.
pub open spec fn map_or_set_typed(e: CxEntity) -> bool {
    match e.type_spelling {
        Some(t) => is_map_or_set_spec(t@),
        None => false,
    }
}

fn map_or_set_typed_exec(e: &CxEntity) -> (r: bool)
    ensures
        r == map_or_set_typed(*e),
{
    match &e.type_spelling {
        Some(t) => is_map_or_set_type(t.as_str()),
        None => false,
    }
}

/// A range-based `for` over a `TMap`/`TSet`: a child, or a grandchild (the
/// desugared `__range` binding), has such a type.
pub open spec fn for_range_over_map_or_set_spec(e: CxEntity) -> bool {
    exists|i: int|
        0 <= i < e.children@.len() && {
            ||| map_or_set_typed(#[trigger] e.children@[i])
            ||| exists|j: int| 0 <= j < e.children@[i].children@.len() && map_or_set_typed(#[trigger] e.children@[i].children@[j])
        }
}

/// Whether a range-based `for` iterates a `TMap`/`TSet`.
pub fn for_range_over_map_or_set(e: &CxEntity) -> (r: bool)
    ensures
        r == for_range_over_map_or_set_spec(*e),
{
    let mut i: usize = 0;
    while i < e.children.len()
        invariant
            i <= e.children@.len(),
            forall|a: int| 0 <= a < i ==> !map_or_set_typed(#[trigger] e.children@[a]) && forall|b: int|
                0 <= b < e.children@[a].children@.len() ==> !map_or_set_typed(#[trigger] e.children@[a].children@[b]),
        decreases e.children.len() - i,
    {
        let c = &e.children[i];
        if map_or_set_typed_exec(c) {
            assert(map_or_set_typed(e.children@[i as int]));
            return true;
        }
        let mut j: usize = 0;
        while j < c.children.len()
            invariant
                i < e.children@.len(),
                *c == e.children@[i as int],
                j <= c.children@.len(),
                forall|b: int| 0 <= b < j ==> !map_or_set_typed(#[trigger] c.children@[b]),
            decreases c.children.len() - j,
        {
            if map_or_set_typed_exec(&c.children[j]) {
                assert(map_or_set_typed(e.children@[i as int].children@[j as int]));
                return true;
            }
            j = j + 1;
        }
        i = i + 1;
    }
    false
}

/// A `.CreateIterator()`/`.CreateConstIterator()` call on a `TMap`/`TSet`:
/// the call's first child is the member reference, whose first child is
/// the receiver.
pub open spec fn create_iterator_over_map_or_set(e: CxEntity) -> bool {
    &&& e.kind == CxKind::CallExpr
    &&& e.children@.len() > 0
    &&& e.children@[0].kind == CxKind::MemberRefExpr
    &&& match e.children@[0].name {
        Some(n) => n@ == "CreateIterator"@ || n@ == "CreateConstIterator"@,
        None => false,
    }
    &&& e.children@[0].children@.len() > 0
    &&& map_or_set_typed(e.children@[0].children@[0])
}

/// Whether a call creates an iterator over a `TMap`/`TSet`.
pub fn is_map_or_set_create_iterator_call(e: &CxEntity) -> (r: bool)
    ensures
        r == create_iterator_over_map_or_set(*e),
{
    if e.kind != CxKind::CallExpr || e.children.len() == 0 {
        return false;
    }
    let m = &e.children[0];
    if m.kind != CxKind::MemberRefExpr {
        return false;
    }
    let named = match &m.name {
        Some(n) => *n == String::from_str("CreateIterator") || *n == String::from_str("CreateConstIterator"),
        None => false,
    };
    if !named || m.children.len() == 0 {
        return false;
    }
    map_or_set_typed_exec(&m.children[0])
}

/// The message of the `hashmap_iter` rule.
pub open spec fn hashmap_message() -> Seq<char> {
    "iterating a TMap/TSet \u{2014} order is not guaranteed stable across peers"@
}

/// The entity iterates a `TMap`/`TSet`.
pub open spec fn hashmap_hit(e: CxEntity) -> bool {
    if e.kind == CxKind::ForRangeStmt {
        for_range_over_map_or_set_spec(e)
    } else if e.kind == CxKind::CallExpr {
        create_iterator_over_map_or_set(e)
    } else {
        false
    }
}

/// The `hashmap_iter` findings in a subtree, in pre-order.
pub open spec fn hashmap_findings(e: CxEntity) -> Seq<FindingView>
    decreases e, 1int,
{
    (if hashmap_hit(e) {
        located(e, "hashmap_iter"@, hashmap_message())
    } else {
        Seq::empty()
    }) + hashmap_findings_in(e.children@, e.children@.len() as int)
}

/// The `hashmap_iter` findings in the first `k` of the subtrees `cs`.
pub open spec fn hashmap_findings_in(cs: Seq<CxEntity>, k: int) -> Seq<FindingView>
    decreases cs, k,
{
    if k <= 0 || k > cs.len() {
        Seq::empty()
    } else {
        hashmap_findings_in(cs, k - 1) + hashmap_findings(cs[k - 1])
    }
}

/// Flags iteration over a `TMap`/`TSet`, by range-based `for` or by an
/// explicit iterator.
pub fn scan_hashmap_iter(e: &CxEntity, out: &mut Vec<Finding>)
    ensures
        views(final(out)@) == views(old(out)@) + hashmap_findings(*e),
    decreases e,
{
    let ghost start = views(old(out)@);
    let hit = if e.kind == CxKind::ForRangeStmt {
        for_range_over_map_or_set(e)
    } else if e.kind == CxKind::CallExpr {
        is_map_or_set_create_iterator_call(e)
    } else {
        false
    };
    if hit {
        push_located(
            e,
            String::from_str("hashmap_iter"),
            String::from_str("iterating a TMap/TSet \u{2014} order is not guaranteed stable across peers"),
            out,
        );
    }
    let ghost own = if hashmap_hit(*e) {
        located(*e, "hashmap_iter"@, hashmap_message())
    } else {
        Seq::empty()
    };
    assert(views(out@) =~= start + own);
    let mut i: usize = 0;
    while i < e.children.len()
        invariant
            i <= e.children@.len(),
            views(out@) == start + own + hashmap_findings_in(e.children@, i as int),
        decreases e.children.len() - i,
    {
        scan_hashmap_iter(&e.children[i], out);
        proof {
            assert(hashmap_findings_in(e.children@, i + 1) == hashmap_findings_in(e.children@, i as int)
                + hashmap_findings(e.children@[i as int]));
            assert(views(out@) =~= start + own + hashmap_findings_in(e.children@, i + 1));
        }
        i = i + 1;
    }
}

// ---- Float arithmetic chains ------------------------------------------------------------

/// The plain arithmetic operators.
pub open spec fn arithmetic_ops() -> Seq<Seq<char>> {
    seq!["+"@, "-"@, "*"@, "/"@]
}

/// The compound-assignment arithmetic operators.
pub open spec fn compound_arithmetic_ops() -> Seq<Seq<char>> {
    seq!["+="@, "-="@, "*="@, "/="@]
}

/// The entity's type is `float` or `double`.
pub open spec fn float_typed(e: CxEntity) -> bool {
    match e.type_spelling {
        Some(t) => t@ == "float"@ || t@ == "double"@,
        None => false,
    }
}

/// Whether an entity's type is `float` or `double`.
pub fn is_float_type(e: &CxEntity) -> (r: bool)
    ensures
        r == float_typed(*e),
{
    match &e.type_spelling {
        Some(t) => *t == String::from_str("float") || *t == String::from_str("double"),
        None => false,
    }
}

/// Float arithmetic: a binary or compound-assignment operator of float
/// type whose operator is `+ - * /` or `+= -= *= /=`.
pub open spec fn float_op(e: CxEntity) -> bool {
    &&& (e.kind == CxKind::BinaryOperator || e.kind == CxKind::CompoundAssignOperator)
    &&& float_typed(e)
    &&& match operator_spelling(e) {
        Some(op) => arithmetic_ops().contains(op) || compound_arithmetic_ops().contains(op),
        None => false,
    }
}

fn float_op_exec(e: &CxEntity) -> (r: bool)
    ensures
        r == float_op(*e),
{
    if !(e.kind == CxKind::BinaryOperator || e.kind == CxKind::CompoundAssignOperator) || !is_float_type(e) {
        return false;
    }
    match binary_operator_spelling(e) {
        Some(op) => {
            let cs = chars_of(op.as_str());
            let plain: Vec<&str> = vec!["+", "-", "*", "/"];
            let compound: Vec<&str> = vec!["+=", "-=", "*=", "/="];
            in_list(cs.as_slice(), &plain, Ghost(arithmetic_ops())) || in_list(
                cs.as_slice(),
                &compound,
                Ghost(compound_arithmetic_ops()),
            )
        },
        None => false,
    }
}

/// The message of the float rule.
pub open spec fn float_chain_message() -> Seq<char> {
    "float arithmetic reachable from tick-reachable code; non-associative reordering can desync across platforms"@
}

/// The float-arithmetic findings in a subtree, in pre-order: float
/// arithmetic is reported unless it lies inside other float arithmetic, so
/// a chain `a + b + c` is reported once, at its outermost operator.
pub open spec fn chain_findings(e: CxEntity, inside: bool) -> Seq<FindingView>
    decreases e, 1int,
{
    (if float_op(e) && !inside {
        located(e, "float_outside_fixed_step"@, float_chain_message())
    } else {
        Seq::empty()
    }) + chain_findings_in(e.children@, e.children@.len() as int, inside || float_op(e))
}

/// The float-arithmetic findings in the first `k` of the subtrees `cs`.
pub open spec fn chain_findings_in(cs: Seq<CxEntity>, k: int, inside: bool) -> Seq<FindingView>
    decreases cs, k,
{
    if k <= 0 || k > cs.len() {
        Seq::empty()
    } else {
        chain_findings_in(cs, k - 1, inside) + chain_findings(cs[k - 1], inside)
    }
}

fn chain_visit(e: &CxEntity, inside: bool, out: &mut Vec<Finding>)
    ensures
        views(final(out)@) == views(old(out)@) + chain_findings(*e, inside),
    decreases e,
{
    let ghost start = views(old(out)@);
    let here = float_op_exec(e);
    if here && !inside {
        push_located(
            e,
            String::from_str("float_outside_fixed_step"),
            String::from_str(
                "float arithmetic reachable from tick-reachable code; non-associative reordering can desync across platforms",
            ),
            out,
        );
    }
    let ghost own = if float_op(*e) && !inside {
        located(*e, "float_outside_fixed_step"@, float_chain_message())
    } else {
        Seq::empty()
    };
    assert(views(out@) =~= start + own);
    let under = inside || here;
    let mut i: usize = 0;
    while i < e.children.len()
        invariant
            i <= e.children@.len(),
            under == (inside || float_op(*e)),
            views(out@) == start + own + chain_findings_in(e.children@, i as int, under),
        decreases e.children.len() - i,
    {
        chain_visit(&e.children[i], under, out);
        proof {
            assert(chain_findings_in(e.children@, i + 1, under) == chain_findings_in(e.children@, i as int, under)
                + chain_findings(e.children@[i as int], under));
            assert(views(out@) =~= start + own + chain_findings_in(e.children@, i + 1, under));
        }
        i = i + 1;
    }
}

/// Flags float arithmetic in a function body, once per chain.
pub fn scan_float_chains(body: &CxEntity, out: &mut Vec<Finding>)
    ensures
        views(final(out)@) == views(old(out)@) + chain_findings(*body, false),
{
    chain_visit(body, false, out)
}


// ---- Pointer-width fields in hashed structs ----------------------------------------------

/// A pointer-width field: the qualified name of its struct and its name.
pub open spec fn pointer_width_field(e: CxEntity) -> Option<(Seq<char>, Seq<char>)> {
    if e.kind == CxKind::FieldDecl && e.semantic_parents@.len() > 0 {
        match (e.type_spelling, e.name) {
            (Some(t), Some(n)) => if pointer_width_names().contains(t@) {
                Some((qualified_at(e.semantic_parents@[0].name, e.semantic_parents@, 1), n@))
            } else {
                None
            },
            _ => None,
        }
    } else {
        None
    }
}

/// The pointer-width fields declared in a subtree, in pre-order.
pub open spec fn pw_fields(e: CxEntity) -> Seq<(Seq<char>, Seq<char>)>
    decreases e, 1int,
{
    (match pointer_width_field(e) {
        Some(p) => seq![p],
        None => Seq::empty(),
    }) + pw_fields_in(e.children@, e.children@.len() as int)
}

/// The pointer-width fields declared in the first `k` of the subtrees `cs`.
pub open spec fn pw_fields_in(cs: Seq<CxEntity>, k: int) -> Seq<(Seq<char>, Seq<char>)>
    decreases cs, k,
{
    if k <= 0 || k > cs.len() {
        Seq::empty()
    } else {
        pw_fields_in(cs, k - 1) + pw_fields(cs[k - 1])
    }
}

fn field_entry(e: &CxEntity) -> (r: Option<(String, String)>)
    ensures
        match r {
            Some(p) => pointer_width_field(*e) == Some((p.0@, p.1@)),
            None => pointer_width_field(*e) is None,
        },
{
    if e.kind != CxKind::FieldDecl || e.semantic_parents.len() == 0 {
        return None;
    }
    match (&e.type_spelling, &e.name) {
        (Some(t), Some(n)) => {
            if is_pointer_width_type(t.as_str()) {
                Some((qualified_name_at(&e.semantic_parents[0].name, &e.semantic_parents, 1), n.clone()))
            } else {
                None
            }
        },
        _ => None,
    }
}

fn collect_fields_into(e: &CxEntity, out: &mut Vec<(String, String)>)
    ensures
        pairs_view(final(out)@) == pairs_view(old(out)@) + pw_fields(*e),
    decreases e,
{
    let ghost start = pairs_view(old(out)@);
    match field_entry(e) {
        Some(p) => {
            out.push(p);
        },
        None => {},
    }
    let ghost own = match pointer_width_field(*e) {
        Some(p) => seq![p],
        None => Seq::empty(),
    };
    assert(pairs_view(out@) =~= start + own);
    let mut i: usize = 0;
    while i < e.children.len()
        invariant
            i <= e.children@.len(),
            pairs_view(out@) == start + own + pw_fields_in(e.children@, i as int),
        decreases e.children.len() - i,
    {
        collect_fields_into(&e.children[i], out);
        proof {
            assert(pw_fields_in(e.children@, i + 1) == pw_fields_in(e.children@, i as int) + pw_fields(e.children@[i as int]));
            assert(pairs_view(out@) =~= start + own + pw_fields_in(e.children@, i + 1));
        }
        i = i + 1;
    }
}

/// Every pointer-width field of a translation unit, with its struct's
/// qualified name.
pub fn collect_pointer_width_fields(root: &CxEntity) -> (r: Vec<(String, String)>)
    ensures
        pairs_view(r@) == pw_fields(*root),
{
    let mut out: Vec<(String, String)> = Vec::new();
    collect_fields_into(root, &mut out);
    assert(pairs_view(out@) =~= pw_fields(*root));
    out
}

/// The struct a `GetTypeHash` definition hashes: the qualified name of the
/// declaration of its single parameter's (pointee) type.
pub open spec fn hashed_struct(e: CxEntity) -> Option<Seq<char>> {
    if e.kind == CxKind::FunctionDecl && e.is_definition && opt_text(e.name) == Some("GetTypeHash"@) {
        match e.arguments {
            Some(args) => if args@.len() == 1 {
                match args@[0] {
                    Some(d) => Some(qualified(d.name, d.semantic_parents@)),
                    None => None,
                }
            } else {
                None
            },
            None => None,
        }
    } else {
        None
    }
}

fn hashed_struct_exec(e: &CxEntity) -> (r: Option<String>)
    ensures
        opt_text(r) == hashed_struct(*e),
{
    if e.kind != CxKind::FunctionDecl || !e.is_definition {
        return None;
    }
    let named = match &e.name {
        Some(n) => *n == String::from_str("GetTypeHash"),
        None => false,
    };
    if !named {
        return None;
    }
    match &e.arguments {
        Some(args) => {
            if args.len() == 1 {
                match &args[0] {
                    Some(d) => Some(qualified_name(&d.name, &d.semantic_parents)),
                    None => None,
                }
            } else {
                None
            }
        },
        None => None,
    }
}

/// The message of the `usize_in_hashed_state` rule for the field `name`.
pub open spec fn usize_message(name: Seq<char>) -> Seq<char> {
    "'"@ + name + "' is SIZE_T/uintptr_t/intptr_t and used in a GetTypeHash overload \u{2014} width varies across platforms"@
}

/// The findings in a `GetTypeHash` body hashing the struct `sn`: every
/// member reference to one of its pointer-width fields, in pre-order.
pub open spec fn body_findings(e: CxEntity, fields: Seq<(Seq<char>, Seq<char>)>, sn: Seq<char>) -> Seq<FindingView>
    decreases e, 1int,
{
    body_hit(e, fields, sn) + body_findings_in(e.children@, e.children@.len() as int, fields, sn)
}

/// The finding on a member reference to one of the pointer-width fields of
/// the struct `sn`, if the entity is one.
pub open spec fn body_hit(e: CxEntity, fields: Seq<(Seq<char>, Seq<char>)>, sn: Seq<char>) -> Seq<FindingView> {
    match e.name {
        Some(n) => if e.kind == CxKind::MemberRefExpr && fields.contains((sn, n@)) {
            located(e, "usize_in_hashed_state"@, usize_message(n@))
        } else {
            Seq::empty()
        },
        None => Seq::empty(),
    }
}

/// The body findings in the first `k` of the subtrees `cs`.
pub open spec fn body_findings_in(cs: Seq<CxEntity>, k: int, fields: Seq<(Seq<char>, Seq<char>)>, sn: Seq<char>) -> Seq<FindingView>
    decreases cs, k,
{
    if k <= 0 || k > cs.len() {
        Seq::empty()
    } else {
        body_findings_in(cs, k - 1, fields, sn) + body_findings(cs[k - 1], fields, sn)
    }
}

/// The `usize_in_hashed_state` findings in a subtree, in pre-order, given
/// the unit's pointer-width fields.
pub open spec fn usize_findings(e: CxEntity, fields: Seq<(Seq<char>, Seq<char>)>) -> Seq<FindingView>
    decreases e, 1int,
{
    (match hashed_struct(e) {
        Some(sn) => body_findings(e, fields, sn),
        None => Seq::empty(),
    }) + usize_findings_in(e.children@, e.children@.len() as int, fields)
}

/// The `usize_in_hashed_state` findings in the first `k` of the subtrees `cs`.
pub open spec fn usize_findings_in(cs: Seq<CxEntity>, k: int, fields: Seq<(Seq<char>, Seq<char>)>) -> Seq<FindingView>
    decreases cs, k,
{
    if k <= 0 || k > cs.len() {
        Seq::empty()
    } else {
        usize_findings_in(cs, k - 1, fields) + usize_findings(cs[k - 1], fields)
    }
}

fn scan_body_for_flagged_fields(e: &CxEntity, fields: &Vec<(String, String)>, sn: &String, out: &mut Vec<Finding>)
    ensures
        views(final(out)@) == views(old(out)@) + body_findings(*e, pairs_view(fields@), sn@),
    decreases e,
{
    let ghost start = views(old(out)@);
    let ghost fv = pairs_view(fields@);
    match &e.name {
        Some(n) => {
            if e.kind == CxKind::MemberRefExpr && pair_listed(fields, sn, n) {
                let mut msg = String::from_str("'");
                msg.append(n.as_str());
                msg.append("' is SIZE_T/uintptr_t/intptr_t and used in a GetTypeHash overload \u{2014} width varies across platforms");
                push_located(e, String::from_str("usize_in_hashed_state"), msg, out);
            }
        },
        None => {},
    }
    let ghost own = body_hit(*e, fv, sn@);
    assert(views(out@) =~= start + own);
    let mut i: usize = 0;
    while i < e.children.len()
        invariant
            i <= e.children@.len(),
            fv == pairs_view(fields@),
            views(out@) == start + own + body_findings_in(e.children@, i as int, fv, sn@),
        decreases e.children.len() - i,
    {
        scan_body_for_flagged_fields(&e.children[i], fields, sn, out);
        proof {
            assert(body_findings_in(e.children@, i + 1, fv, sn@) == body_findings_in(e.children@, i as int, fv, sn@)
                + body_findings(e.children@[i as int], fv, sn@));
            assert(views(out@) =~= start + own + body_findings_in(e.children@, i + 1, fv, sn@));
        }
        i = i + 1;
    }
}

fn usize_visit(e: &CxEntity, fields: &Vec<(String, String)>, out: &mut Vec<Finding>)
    ensures
        views(final(out)@) == views(old(out)@) + usize_findings(*e, pairs_view(fields@)),
    decreases e,
{
    let ghost start = views(old(out)@);
    let ghost fv = pairs_view(fields@);
    match hashed_struct_exec(e) {
        Some(sn) => scan_body_for_flagged_fields(e, fields, &sn, out),
        None => {},
    }
    let ghost own = match hashed_struct(*e) {
        Some(sn) => body_findings(*e, fv, sn),
        None => Seq::empty(),
    };
    assert(views(out@) =~= start + own);
    let mut i: usize = 0;
    while i < e.children.len()
        invariant
            i <= e.children@.len(),
            fv == pairs_view(fields@),
            views(out@) == start + own + usize_findings_in(e.children@, i as int, fv),
        decreases e.children.len() - i,
    {
        usize_visit(&e.children[i], fields, out);
        proof {
            assert(usize_findings_in(e.children@, i + 1, fv) == usize_findings_in(e.children@, i as int, fv)
                + usize_findings(e.children@[i as int], fv));
            assert(views(out@) =~= start + own + usize_findings_in(e.children@, i + 1, fv));
        }
        i = i + 1;
    }
}

/// Flags pointer-width fields referenced in a `GetTypeHash` overload for
/// their struct.
pub fn scan_usize_in_hashed_state(root: &CxEntity, out: &mut Vec<Finding>)
    ensures
        views(final(out)@) == views(old(out)@) + usize_findings(*root, pw_fields(*root)),
{
    let fields = collect_pointer_width_fields(root);
    usize_visit(root, &fields, out)
}

// ---- Function definitions: call edges and float candidates ----------------------------------

/// The entity kinds that declare functions.
pub open spec fn function_like(k: CxKind) -> bool {
    k == CxKind::FunctionDecl || k == CxKind::Method || k == CxKind::Constructor || k == CxKind::Destructor
        || k == CxKind::FunctionTemplate
}

/// Whether an entity kind declares a function.
pub fn is_function_like(k: CxKind) -> (r: bool)
    ensures
        r == function_like(k),
{
    k == CxKind::FunctionDecl || k == CxKind::Method || k == CxKind::Constructor || k == CxKind::Destructor
        || k == CxKind::FunctionTemplate
}

/// The entity is a function definition.
pub open spec fn defines_function(e: CxEntity) -> bool {
    function_like(e.kind) && e.is_definition
}

/// The call edges from `caller` made by the calls in a subtree, in
/// pre-order: one to the qualified name of each call's referenced
/// declaration.
pub open spec fn call_edges(e: CxEntity, caller: Seq<char>) -> Seq<(Seq<char>, Seq<char>)>
    decreases e, 1int,
{
    call_edge(e, caller) + call_edges_in(e.children@, e.children@.len() as int, caller)
}

/// The call edge a call makes to its referenced declaration, if the entity
/// is such a call.
pub open spec fn call_edge(e: CxEntity, caller: Seq<char>) -> Seq<(Seq<char>, Seq<char>)> {
    if e.kind == CxKind::CallExpr {
        match e.reference {
            Some(d) => seq![(caller, qualified(d.name, d.semantic_parents@))],
            None => Seq::empty(),
        }
    } else {
        Seq::empty()
    }
}

/// The call edges made in the first `k` of the subtrees `cs`.
pub open spec fn call_edges_in(cs: Seq<CxEntity>, k: int, caller: Seq<char>) -> Seq<(Seq<char>, Seq<char>)>
    decreases cs, k,
{
    if k <= 0 || k > cs.len() {
        Seq::empty()
    } else {
        call_edges_in(cs, k - 1, caller) + call_edges(cs[k - 1], caller)
    }
}

fn collect_call_edges(e: &CxEntity, caller: &String, out: &mut Vec<(String, String)>)
    ensures
        pairs_view(final(out)@) == pairs_view(old(out)@) + call_edges(*e, caller@),
    decreases e,
{
    let ghost start = pairs_view(old(out)@);
    if e.kind == CxKind::CallExpr {
        match &e.reference {
            Some(d) => {
                out.push((caller.clone(), qualified_name(&d.name, &d.semantic_parents)));
            },
            None => {},
        }
    }
    let ghost own = call_edge(*e, caller@);
    assert(pairs_view(out@) =~= start + own);
    let mut i: usize = 0;
    while i < e.children.len()
        invariant
            i <= e.children@.len(),
            pairs_view(out@) == start + own + call_edges_in(e.children@, i as int, caller@),
        decreases e.children.len() - i,
    {
        collect_call_edges(&e.children[i], caller, out);
        proof {
            assert(call_edges_in(e.children@, i + 1, caller@) == call_edges_in(e.children@, i as int, caller@)
                + call_edges(e.children@[i as int], caller@));
            assert(pairs_view(out@) =~= start + own + call_edges_in(e.children@, i + 1, caller@));
        }
        i = i + 1;
    }
}

/// Findings tagged with the qualified name of the function they lie in.
pub open spec fn tagged(owner: Seq<char>, fs: Seq<FindingView>) -> Seq<(Seq<char>, FindingView)> {
    fs.map_values(|f: FindingView| (owner, f))
}

/// The contents of a list of tagged findings.
pub open spec fn cand_views(v: Seq<(String, Finding)>) -> Seq<(Seq<char>, FindingView)> {
    v.map_values(|p: (String, Finding)| (p.0@, p.1@))
}

/// The call edges of every function defined in a subtree, in pre-order,
/// each from the function's qualified name.
pub open spec fn def_edges(e: CxEntity) -> Seq<(Seq<char>, Seq<char>)>
    decreases e, 1int,
{
    (if defines_function(e) {
        call_edges(e, qualified(e.name, e.semantic_parents@))
    } else {
        Seq::empty()
    }) + def_edges_in(e.children@, e.children@.len() as int)
}

/// The call edges of the functions defined in the first `k` of the subtrees `cs`.
pub open spec fn def_edges_in(cs: Seq<CxEntity>, k: int) -> Seq<(Seq<char>, Seq<char>)>
    decreases cs, k,
{
    if k <= 0 || k > cs.len() {
        Seq::empty()
    } else {
        def_edges_in(cs, k - 1) + def_edges(cs[k - 1])
    }
}

/// The float findings of every function defined in a subtree, in
/// pre-order, each tagged with the function's qualified name.
pub open spec fn def_candidates(e: CxEntity) -> Seq<(Seq<char>, FindingView)>
    decreases e, 1int,
{
    (if defines_function(e) {
        tagged(qualified(e.name, e.semantic_parents@), chain_findings(e, false))
    } else {
        Seq::empty()
    }) + def_candidates_in(e.children@, e.children@.len() as int)
}

/// The tagged float findings of the functions defined in the first `k` of
/// the subtrees `cs`.
pub open spec fn def_candidates_in(cs: Seq<CxEntity>, k: int) -> Seq<(Seq<char>, FindingView)>
    decreases cs, k,
{
    if k <= 0 || k > cs.len() {
        Seq::empty()
    } else {
        def_candidates_in(cs, k - 1) + def_candidates(cs[k - 1])
    }
}

fn function_visit(e: &CxEntity, edges: &mut Vec<(String, String)>, cands: &mut Vec<(String, Finding)>)
    ensures
        pairs_view(final(edges)@) == pairs_view(old(edges)@) + def_edges(*e),
        cand_views(final(cands)@) == cand_views(old(cands)@) + def_candidates(*e),
    decreases e,
{
    let ghost e0 = pairs_view(old(edges)@);
    let ghost c0 = cand_views(old(cands)@);
    if is_function_like(e.kind) && e.is_definition {
        let qname = qualified_name(&e.name, &e.semantic_parents);
        let mut found: Vec<Finding> = Vec::new();
        scan_float_chains(e, &mut found);
        assert(views(found@) =~= chain_findings(*e, false));
        let mut t: usize = 0;
        while t < found.len()
            invariant
                t <= found@.len(),
                views(found@) == chain_findings(*e, false),
                cand_views(cands@) == c0 + tagged(qname@, views(found@).take(t as int)),
            decreases found.len() - t,
        {
            let ghost b = cand_views(cands@);
            cands.push((qname.clone(), crate::findings::copy_finding(&found[t])));
            proof {
                assert(cand_views(cands@) =~= b.push((qname@, found@[t as int]@)));
                assert(views(found@).take(t + 1) =~= views(found@).take(t as int).push(found@[t as int]@));
                assert(tagged(qname@, views(found@).take(t + 1)) =~= tagged(qname@, views(found@).take(t as int)).push(
                    (qname@, found@[t as int]@),
                ));
                assert(cand_views(cands@) =~= c0 + tagged(qname@, views(found@).take(t + 1)));
            }
            t = t + 1;
        }
        assert(views(found@).take(found@.len() as int) =~= views(found@));
        collect_call_edges(e, &qname, edges);
    }
    let ghost own_e = if defines_function(*e) {
        call_edges(*e, qualified(e.name, e.semantic_parents@))
    } else {
        Seq::empty()
    };
    let ghost own_c = if defines_function(*e) {
        tagged(qualified(e.name, e.semantic_parents@), chain_findings(*e, false))
    } else {
        Seq::empty()
    };
    assert(pairs_view(edges@) =~= e0 + own_e);
    assert(cand_views(cands@) =~= c0 + own_c);
    let mut i: usize = 0;
    while i < e.children.len()
        invariant
            i <= e.children@.len(),
            pairs_view(edges@) == e0 + own_e + def_edges_in(e.children@, i as int),
            cand_views(cands@) == c0 + own_c + def_candidates_in(e.children@, i as int),
        decreases e.children.len() - i,
    {
        function_visit(&e.children[i], edges, cands);
        proof {
            assert(def_edges_in(e.children@, i + 1) == def_edges_in(e.children@, i as int) + def_edges(e.children@[i as int]));
            assert(def_candidates_in(e.children@, i + 1) == def_candidates_in(e.children@, i as int)
                + def_candidates(e.children@[i as int]));
            assert(pairs_view(edges@) =~= e0 + own_e + def_edges_in(e.children@, i + 1));
            assert(cand_views(cands@) =~= c0 + own_c + def_candidates_in(e.children@, i + 1));
        }
        i = i + 1;
    }
}

// ---- One translation unit -------------------------------------------------------------

/// What scanning one translation unit yields: the findings of the
/// unconditional rules, the call edges, and the float findings tagged with
/// their function, which only the whole program's call graph can filter.
pub struct WorkerOutput {
    pub findings: Vec<Finding>,
    pub edges: Vec<(String, String)>,
    pub float_candidates: Vec<(String, Finding)>,
}

impl WorkerOutput {
    /// The output of a unit that could not be parsed: nothing.
    pub fn empty() -> (r: WorkerOutput)
        ensures
            r.findings@.len() == 0,
            r.edges@.len() == 0,
            r.float_candidates@.len() == 0,
    {
        WorkerOutput { findings: Vec::new(), edges: Vec::new(), float_candidates: Vec::new() }
    }
}

/// The unconditional findings of a unit, rule by rule, each in pre-order.
pub open spec fn unit_findings(root: CxEntity) -> Seq<FindingView> {
    call_findings(root, CallRule::UnseededRng) + call_findings(root, CallRule::WallclockRead) + hashmap_findings(root)
        + call_findings(root, CallRule::UnorderedParallelism) + usize_findings(root, pw_fields(root))
}

/// Runs every rule against one parsed translation unit. The call edges and
/// tagged float findings of its function definitions (below the root) are
/// gathered only when reachability roots are configured; each call edge is
/// listed once.
pub fn scan_translation_unit(root: &CxEntity, config: &Config) -> (r: WorkerOutput)
    ensures
        views(r.findings@) == unit_findings(*root),
        pairs_view(r.edges@).no_duplicates(),
        config.tick_reachable_roots@.len() > 0 ==> forall|p: (Seq<char>, Seq<char>)|
            #![trigger pairs_view(r.edges@).contains(p)]
            pairs_view(r.edges@).contains(p) <==> def_edges_in(root.children@, root.children@.len() as int).contains(p),
        config.tick_reachable_roots@.len() > 0 ==> cand_views(r.float_candidates@) == def_candidates_in(
            root.children@,
            root.children@.len() as int,
        ),
        config.tick_reachable_roots@.len() == 0 ==> r.edges@.len() == 0 && r.float_candidates@.len() == 0,
{
    let mut out = WorkerOutput::empty();
    scan_unseeded_rng(root, &mut out.findings);
    scan_wallclock_read(root, &mut out.findings);
    scan_hashmap_iter(root, &mut out.findings);
    scan_unordered_parallelism(root, &mut out.findings);
    scan_usize_in_hashed_state(root, &mut out.findings);
    assert(views(out.findings@) =~= unit_findings(*root));
    if config.tick_reachable_roots.len() > 0 {
        let mut all_edges: Vec<(String, String)> = Vec::new();
        let mut i: usize = 0;
        assert(pairs_view(all_edges@) =~= def_edges_in(root.children@, 0));
        assert(cand_views(out.float_candidates@) =~= def_candidates_in(root.children@, 0));
        while i < root.children.len()
            invariant
                i <= root.children@.len(),
                views(out.findings@) == unit_findings(*root),
                out.edges@.len() == 0,
                pairs_view(all_edges@) == def_edges_in(root.children@, i as int),
                cand_views(out.float_candidates@) == def_candidates_in(root.children@, i as int),
            decreases root.children.len() - i,
        {
            function_visit(&root.children[i], &mut all_edges, &mut out.float_candidates);
            proof {
                assert(def_edges_in(root.children@, i + 1) == def_edges_in(root.children@, i as int) + def_edges(
                    root.children@[i as int],
                ));
                assert(def_candidates_in(root.children@, i + 1) == def_candidates_in(root.children@, i as int)
                    + def_candidates(root.children@[i as int]));
            }
            i = i + 1;
        }
        assert(pairs_view(out.edges@) =~= Seq::<(Seq<char>, Seq<char>)>::empty());
        push_distinct_pairs(&mut out.edges, &all_edges);
    }
    out
}


// ---- Laws ----------------------------------------------------------------------------

proof fn lemma_chain_inside_silent(e: CxEntity)
    ensures
        chain_findings(e, true) == Seq::<FindingView>::empty(),
    decreases e, 1int,
{
    lemma_chain_in_inside_silent(e.children@, e.children@.len() as int);
    assert(chain_findings(e, true) =~= Seq::<FindingView>::empty());
}

proof fn lemma_chain_in_inside_silent(cs: Seq<CxEntity>, k: int)
    ensures
        chain_findings_in(cs, k, true) == Seq::<FindingView>::empty(),
    decreases cs, k,
{
    if 0 < k <= cs.len() {
        lemma_chain_in_inside_silent(cs, k - 1);
        lemma_chain_inside_silent(cs[k - 1]);
        assert(chain_findings_in(cs, k, true) =~= Seq::<FindingView>::empty());
    }
}

/// A chain of float arithmetic is reported once, at its outermost
/// operator: nothing under float arithmetic is reported again.
pub proof fn law_chain_reported_once(e: CxEntity)
    requires
        float_op(e),
    ensures
        chain_findings(e, false) == located(e, "float_outside_fixed_step"@, float_chain_message()),
{
    lemma_chain_in_inside_silent(e.children@, e.children@.len() as int);
    assert(chain_findings(e, false) =~= located(e, "float_outside_fixed_step"@, float_chain_message()));
}

/// The entity reached from `e` by following the child indices `path`.
pub open spec fn subtree_at(e: CxEntity, path: Seq<int>) -> Option<CxEntity>
    decreases path.len(),
{
    if path.len() == 0 {
        Some(e)
    } else if 0 <= path[0] < e.children@.len() {
        subtree_at(e.children@[path[0]], path.drop_first())
    } else {
        None
    }
}

proof fn lemma_hashmap_findings_in_holds(cs: Seq<CxEntity>, k: int, j: int, x: FindingView)
    requires
        0 <= j < k <= cs.len(),
        hashmap_findings(cs[j]).contains(x),
    ensures
        hashmap_findings_in(cs, k).contains(x),
    decreases k,
{
    if j < k - 1 {
        lemma_hashmap_findings_in_holds(cs, k - 1, j, x);
    }
    lemma_contains_concat(hashmap_findings_in(cs, k - 1), hashmap_findings(cs[k - 1]), x);
}

proof fn lemma_hashmap_findings_below(root: CxEntity, path: Seq<int>, e: CxEntity, x: FindingView)
    requires
        subtree_at(root, path) == Some(e),
        hashmap_findings(e).contains(x),
    ensures
        hashmap_findings(root).contains(x),
    decreases path.len(),
{
    if path.len() > 0 {
        let c = root.children@[path[0]];
        lemma_hashmap_findings_below(c, path.drop_first(), e, x);
        lemma_hashmap_findings_in_holds(root.children@, root.children@.len() as int, path[0], x);
        lemma_contains_concat(
            if hashmap_hit(root) {
                located(root, "hashmap_iter"@, hashmap_message())
            } else {
                Seq::empty()
            },
            hashmap_findings_in(root.children@, root.children@.len() as int),
            x,
        );
    }
}

/// Anywhere in a translation unit, a `.CreateIterator()` or
/// `.CreateConstIterator()` call on a receiver whose type is spelled
/// `TMap<...>` or `TSet<...>` draws a `hashmap_iter` finding at the call
/// among the unit's findings (`out`, as `scan_translation_unit` returns
/// them).
pub proof fn law_create_iterator_reported(
    root: CxEntity,
    out: WorkerOutput,
    path: Seq<int>,
    e: CxEntity,
    method: String,
    receiver_type: String,
    at: CxRange,
)
    requires
        views(out.findings@) == unit_findings(root),
        subtree_at(root, path) == Some(e),
        e.kind == CxKind::CallExpr,
        e.range == Some(at),
        e.children@.len() > 0,
        e.children@[0].kind == CxKind::MemberRefExpr,
        e.children@[0].name == Some(method),
        method@ == "CreateIterator"@ || method@ == "CreateConstIterator"@,
        e.children@[0].children@.len() > 0,
        e.children@[0].children@[0].type_spelling == Some(receiver_type),
        has_prefix(receiver_type@, "TMap<"@) || has_prefix(receiver_type@, "TSet<"@),
    ensures
        views(out.findings@).contains(
            FindingView {
                file: at.file@,
                line: at.line,
                column: at.column,
                rule: "hashmap_iter"@,
                message: "iterating a TMap/TSet \u{2014} order is not guaranteed stable across peers"@,
            },
        ),
{
    let x = FindingView {
        file: at.file@,
        line: at.line,
        column: at.column,
        rule: "hashmap_iter"@,
        message: "iterating a TMap/TSet \u{2014} order is not guaranteed stable across peers"@,
    };
    crate::unreal::law_map_or_set_spelling(receiver_type@);
    assert(hashmap_hit(e));
    assert(located(e, "hashmap_iter"@, hashmap_message())[0] == x);
    lemma_contains_concat(
        located(e, "hashmap_iter"@, hashmap_message()),
        hashmap_findings_in(e.children@, e.children@.len() as int),
        x,
    );
    lemma_hashmap_findings_below(root, path, e, x);
    let a = call_findings(root, CallRule::UnseededRng) + call_findings(root, CallRule::WallclockRead);
    lemma_contains_concat(a, hashmap_findings(root), x);
    lemma_contains_concat(a + hashmap_findings(root), call_findings(root, CallRule::UnorderedParallelism), x);
    lemma_contains_concat(
        a + hashmap_findings(root) + call_findings(root, CallRule::UnorderedParallelism),
        usize_findings(root, pw_fields(root)),
        x,
    );
}

} // verus!
