use vstd::prelude::*;
use vstd::string::*;
use vstd::utf8::encode_utf8;
use crate::text::{chars_of, chars_eq, string_from, trim, trim_chars, name_is, in_list, concat, chars_to_string};
use crate::findings::{Finding, FindingView, views, sorted_dedup_views, sort_dedup, key_in, view_key, law_collected_reported, lemma_contains_concat};
use crate::reach::{texts, pairs_view, name_reachable, reachable_names, index_of, intern, lemma_index_found, law_no_roots_nothing_reachable};

verus! {

// ---- The syntax model ----------------------------------------------------------

/// A token of a GDScript syntax tree: its kind's name, its text and the byte
/// offset it starts at.
pub struct GdToken {
    pub kind: String,
    pub text: String,
    pub start: u32,
}

/// A node of a GDScript syntax tree, as one entry of the tree's pre-order
/// listing: its kind's name, the byte offset and text it covers, its own
/// tokens, and how many child nodes follow it (each with its subtree).
pub struct GdRecord {
    pub kind: String,
    pub start: u32,
    pub text: String,
    pub tokens: Vec<GdToken>,
    pub child_count: usize,
}

/// A parsed GDScript file: every node in pre-order, root first, and the
/// number of syntax errors the parser recovered from.
pub struct GdSyntax {
    pub records: Vec<GdRecord>,
    pub error_count: usize,
}

/// The syntax tree `gdck_syntax::parse` builds for a source text.
pub uninterp spec fn gdscript_syntax(source: Seq<char>) -> GdSyntax;

/// Parses GDScript with `gdck_syntax::parse` and lists the tree in
/// pre-order (`SyntaxNode::descendants`), each node with its kind's `Debug`
/// name, range start, text, direct tokens and number of direct child nodes.
/// The contract only names the result: it is a function of the source.
#[verifier::external_body]
fn parse_gdscript(source: &str) -> (tree: GdSyntax)
    ensures
        tree == gdscript_syntax(source@),
{
    let tree = gdck_syntax::parse(source);
    let records = tree.root().descendants().map(|n| GdRecord {
        kind: format!("{:?}", n.kind()),
        start: n.range().start(),
        text: n.text().to_string(),
        tokens: n.child_tokens().map(|t| GdToken {
            kind: format!("{:?}", t.kind), text: t.text(source).to_string(), start: t.range.start(),
        }).collect(),
        child_count: n.child_nodes().count(),
    }).collect();
    GdSyntax { records, error_count: tree.errors().len() }
}

/// The node kinds the rules look at.
#[derive(PartialEq, Eq, Structural, Clone, Copy)]
pub enum GdKind {
    CallExpr,
    NameRef,
    AttributeExpr,
    Literal,
    ParenExpr,
    UnaryExpr,
    BinaryExpr,
    Param,
    VarDecl,
    TypeHint,
    FuncDecl,
    AssignStmt,
    Other,
}

/// The kind a node kind's name stands for.
pub open spec fn gd_kind(name: Seq<char>) -> GdKind {
    if name == "CallExpr"@ {
        GdKind::CallExpr
    } else if name == "NameRef"@ {
        GdKind::NameRef
    } else if name == "AttributeExpr"@ {
        GdKind::AttributeExpr
    } else if name == "Literal"@ {
        GdKind::Literal
    } else if name == "ParenExpr"@ {
        GdKind::ParenExpr
    } else if name == "UnaryExpr"@ {
        GdKind::UnaryExpr
    } else if name == "BinaryExpr"@ {
        GdKind::BinaryExpr
    } else if name == "Param"@ {
        GdKind::Param
    } else if name == "VarDecl"@ {
        GdKind::VarDecl
    } else if name == "TypeHint"@ {
        GdKind::TypeHint
    } else if name == "FuncDecl"@ {
        GdKind::FuncDecl
    } else if name == "AssignStmt"@ {
        GdKind::AssignStmt
    } else {
        GdKind::Other
    }
}

/// The kind of a node, from its kind's name.
pub fn kind_of(name: &String) -> (k: GdKind)
    ensures
        k == gd_kind(name@),
{
    let n = chars_of(name.as_str());
    let s = n.as_slice();
    if name_is(s, "CallExpr") {
        GdKind::CallExpr
    } else if name_is(s, "NameRef") {
        GdKind::NameRef
    } else if name_is(s, "AttributeExpr") {
        GdKind::AttributeExpr
    } else if name_is(s, "Literal") {
        GdKind::Literal
    } else if name_is(s, "ParenExpr") {
        GdKind::ParenExpr
    } else if name_is(s, "UnaryExpr") {
        GdKind::UnaryExpr
    } else if name_is(s, "BinaryExpr") {
        GdKind::BinaryExpr
    } else if name_is(s, "Param") {
        GdKind::Param
    } else if name_is(s, "VarDecl") {
        GdKind::VarDecl
    } else if name_is(s, "TypeHint") {
        GdKind::TypeHint
    } else if name_is(s, "FuncDecl") {
        GdKind::FuncDecl
    } else if name_is(s, "AssignStmt") {
        GdKind::AssignStmt
    } else {
        GdKind::Other
    }
}

/// The token kinds the rules look at.
#[derive(PartialEq, Eq, Structural, Clone, Copy)]
pub enum GdTokenKind {
    Ident,
    Float,
    /// `+ - * /`
    Arith,
    /// `+= -= *= /=`
    CompoundArith,
    /// White space, comments, newlines and line continuations.
    Trivia,
    Other,
}

/// The kind a token kind's name stands for.
pub open spec fn gd_token_kind(name: Seq<char>) -> GdTokenKind {
    if name == "Ident"@ {
        GdTokenKind::Ident
    } else if name == "Float"@ {
        GdTokenKind::Float
    } else if name == "Plus"@ || name == "Minus"@ || name == "Star"@ || name == "Slash"@ {
        GdTokenKind::Arith
    } else if name == "PlusEq"@ || name == "MinusEq"@ || name == "StarEq"@ || name == "SlashEq"@ {
        GdTokenKind::CompoundArith
    } else if name == "Whitespace"@ || name == "Comment"@ || name == "DocComment"@ || name == "Newline"@
        || name == "LineContinuation"@ {
        GdTokenKind::Trivia
    } else {
        GdTokenKind::Other
    }
}

/// The kind of a token, from its kind's name.
pub fn token_kind_of(name: &String) -> (k: GdTokenKind)
    ensures
        k == gd_token_kind(name@),
{
    let n = chars_of(name.as_str());
    let s = n.as_slice();
    if name_is(s, "Ident") {
        GdTokenKind::Ident
    } else if name_is(s, "Float") {
        GdTokenKind::Float
    } else if name_is(s, "Plus") || name_is(s, "Minus") || name_is(s, "Star") || name_is(s, "Slash") {
        GdTokenKind::Arith
    } else if name_is(s, "PlusEq") || name_is(s, "MinusEq") || name_is(s, "StarEq") || name_is(
        s,
        "SlashEq",
    ) {
        GdTokenKind::CompoundArith
    } else if name_is(s, "Whitespace") || name_is(s, "Comment") || name_is(s, "DocComment")
        || name_is(s, "Newline") || name_is(s, "LineContinuation") {
        GdTokenKind::Trivia
    } else {
        GdTokenKind::Other
    }
}

// ---- Tree shape ----------------------------------------------------------------

/// The position just past the subtree of the node at `p` in the pre-order
/// listing.
pub open spec fn node_end(recs: Seq<GdRecord>, p: int) -> int
    decreases recs.len() - p, 1int,
{
    if p < 0 || p >= recs.len() {
        recs.len() as int
    } else {
        children_end(recs, p + 1, recs[p].child_count as int)
    }
}

/// The position just past `k` sibling subtrees starting at `q`.
pub open spec fn children_end(recs: Seq<GdRecord>, q: int, k: int) -> int
    decreases recs.len() - q + 1, 0int,
{
    if k <= 0 {
        q
    } else if q < 0 || q >= recs.len() {
        recs.len() as int
    } else {
        let e = node_end(recs, q);
        children_end(recs, if e > q && e <= recs.len() { e } else { q + 1 }, k - 1)
    }
}

/// The position of the next sibling of the node at `q`.
pub open spec fn next_sib(recs: Seq<GdRecord>, q: int) -> int {
    let e = node_end(recs, q);
    if e > q && e <= recs.len() {
        e
    } else {
        q + 1
    }
}

pub proof fn lemma_end_bounds(recs: Seq<GdRecord>, q: int, k: int)
    requires
        0 <= q <= recs.len(),
    ensures
        q <= children_end(recs, q, k) <= recs.len(),
        q < recs.len() ==> q < node_end(recs, q) <= recs.len(),
    decreases recs.len() - q, k,
{
    if q < recs.len() {
        lemma_end_bounds(recs, q + 1, recs[q].child_count as int);
        if k > 0 {
            lemma_end_bounds(recs, next_sib(recs, q), k - 1);
        }
    }
}

/// The end of every node's subtree.
fn compute_ends(recs: &Vec<GdRecord>) -> (ends: Vec<usize>)
    ensures
        ends@.len() == recs@.len(),
        forall|p: int| 0 <= p < recs@.len() ==> #[trigger] ends@[p] as int == node_end(recs@, p),
{
    let n = recs.len();
    let mut ends: Vec<usize> = Vec::new();
    let mut i: usize = 0;
    while i < n
        invariant
            i <= n,
            ends@.len() == i,
        decreases n - i,
    {
        ends.push(n);
        i = i + 1;
    }
    let mut p: usize = n;
    while p > 0
        invariant
            n == recs@.len(),
            p <= n,
            ends@.len() == n,
            forall|q: int| p <= q < n ==> #[trigger] ends@[q] as int == node_end(recs@, q),
        decreases p,
    {
        p = p - 1;
        let mut cur: usize = p + 1;
        let mut k: usize = recs[p].child_count;
        proof {
            lemma_end_bounds(recs@, p + 1, k as int);
        }
        while k > 0 && cur < n
            invariant
                n == recs@.len(),
                p < n,
                p + 1 <= cur <= n,
                ends@.len() == n,
                forall|q: int| p < q < n ==> #[trigger] ends@[q] as int == node_end(recs@, q),
                children_end(recs@, p + 1, recs@[p as int].child_count as int) == children_end(recs@, cur as int, k as int),
            decreases n - cur,
        {
            let e = ends[cur];
            proof {
                lemma_end_bounds(recs@, cur as int, 0);
            }
            cur = if e > cur && e <= n { e } else { cur + 1 };
            k = k - 1;
        }
        let end = if k > 0 { n } else { cur };
        ends.set(p, end);
    }
    ends
}

// ---- Names and callees -----------------------------------------------------------

/// The trimmed text of the first `Ident` token among `toks`.
pub open spec fn ident_of(toks: Seq<GdToken>) -> Option<Seq<char>>
    decreases toks.len(),
{
    if toks.len() == 0 {
        None
    } else if gd_token_kind(toks[0].kind@) == GdTokenKind::Ident {
        Some(trim(toks[0].text@))
    } else {
        ident_of(toks.drop_first())
    }
}

/// The identifier a node declares or names: its first direct `Ident` token.
pub fn ident_text(toks: &Vec<GdToken>) -> (r: Option<Vec<char>>)
    ensures
        match r {
            Some(v) => ident_of(toks@) == Some(v@),
            None => ident_of(toks@) is None,
        },
{
    let mut i: usize = 0;
    assert(toks@.skip(0) =~= toks@);
    while i < toks.len()
        invariant
            i <= toks@.len(),
            ident_of(toks@) == ident_of(toks@.skip(i as int)),
        decreases toks.len() - i,
    {
        proof {
            assert(toks@.skip(i as int)[0] == toks@[i as int]);
            assert(toks@.skip(i as int).drop_first() =~= toks@.skip(i + 1));
        }
        if token_kind_of(&toks[i].kind) == GdTokenKind::Ident {
            let t = chars_of(toks[i].text.as_str());
            return Some(trim_chars(t.as_slice()));
        }
        i = i + 1;
    }
    None
}

/// The callee of a call node at `p`: its first child node, when that is a
/// bare name or an attribute access, as trimmed text.
pub open spec fn callee(recs: Seq<GdRecord>, p: int) -> Option<Seq<char>> {
    if 0 <= p && p + 1 < recs.len() && recs[p].child_count > 0 && (gd_kind(recs[p + 1].kind@)
        == GdKind::NameRef || gd_kind(recs[p + 1].kind@) == GdKind::AttributeExpr) {
        Some(trim(recs[p + 1].text@))
    } else {
        None
    }
}

fn callee_text(recs: &Vec<GdRecord>, kinds: &Vec<GdKind>, p: usize) -> (r: Option<Vec<char>>)
    requires
        p < recs@.len(),
        kinds@.len() == recs@.len(),
        forall|q: int| 0 <= q < recs@.len() ==> #[trigger] kinds@[q] == gd_kind(recs@[q].kind@),
    ensures
        match r {
            Some(v) => callee(recs@, p as int) == Some(v@),
            None => callee(recs@, p as int) is None,
        },
{
    if p < recs.len() - 1 && recs[p].child_count > 0 && (kinds[p + 1] == GdKind::NameRef || kinds[p
        + 1] == GdKind::AttributeExpr) {
        let t = chars_of(recs[p + 1].text.as_str());
        Some(trim_chars(t.as_slice()))
    } else {
        None
    }
}

// ---- The unconditional rules ---------------------------------------------------

/// Godot's global RNG functions.
pub open spec fn rng_funcs() -> Seq<Seq<char>> {
    seq!["randi"@, "randf"@, "randi_range"@, "randf_range"@, "randfn"@, "randomize"@]
}

/// Wall-clock and OS-time reads.
pub open spec fn wallclock_funcs() -> Seq<Seq<char>> {
    seq![
        "OS.get_ticks_msec"@,
        "OS.get_ticks_usec"@,
        "Time.get_ticks_msec"@,
        "Time.get_ticks_usec"@,
        "Time.get_unix_time_from_system"@,
    ]
}

/// Thread-pool dispatch whose completion order is unspecified.
pub open spec fn parallelism_funcs() -> Seq<Seq<char>> {
    seq!["WorkerThreadPool.add_task"@, "WorkerThreadPool.add_group_task"@]
}

/// The rule and message a call to `callee` draws, if any.
pub open spec fn unconditional_rule(callee: Seq<char>) -> Option<(Seq<char>, Seq<char>)> {
    if rng_funcs().contains(callee) {
        Some(
            (
                "unseeded_rng"@,
                callee
                    + "() reads or reseeds Godot's global RNG, which is not deterministically tracked by default; differs per peer/run"@,
            ),
        )
    } else if wallclock_funcs().contains(callee) {
        Some(
            (
                "wallclock_read"@,
                callee
                    + "() reads wallclock/OS time, which differs per peer/run; do not fold it into simulated state"@,
            ),
        )
    } else if parallelism_funcs().contains(callee) {
        Some(
            (
                "unordered_parallelism"@,
                callee
                    + "() dispatches unordered parallel work; folding its results into simulated state without a deterministic reduction can desync across peers"@,
            ),
        )
    } else {
        None
    }
}

/// The rule and message a call to `callee` draws, if any.
pub fn classify_callee(callee: &[char]) -> (r: Option<(String, String)>)
    ensures
        match r {
            Some((rule, msg)) => unconditional_rule(callee@) == Some((rule@, msg@)),
            None => unconditional_rule(callee@) is None,
        },
{
    let rng: Vec<&str> = vec!["randi", "randf", "randi_range", "randf_range", "randfn", "randomize"];
    let wall: Vec<&str> = vec![
        "OS.get_ticks_msec",
        "OS.get_ticks_usec",
        "Time.get_ticks_msec",
        "Time.get_ticks_usec",
        "Time.get_unix_time_from_system",
    ];
    let par: Vec<&str> = vec!["WorkerThreadPool.add_task", "WorkerThreadPool.add_group_task"];
    if in_list(callee, &rng, Ghost(rng_funcs())) {
        Some(
            (
                chars_to_string("unseeded_rng"),
                concat(
                    callee,
                    "() reads or reseeds Godot's global RNG, which is not deterministically tracked by default; differs per peer/run",
                ),
            ),
        )
    } else if in_list(callee, &wall, Ghost(wallclock_funcs())) {
        Some(
            (
                chars_to_string("wallclock_read"),
                concat(
                    callee,
                    "() reads wallclock/OS time, which differs per peer/run; do not fold it into simulated state",
                ),
            ),
        )
    } else if in_list(callee, &par, Ghost(parallelism_funcs())) {
        Some(
            (
                chars_to_string("unordered_parallelism"),
                concat(
                    callee,
                    "() dispatches unordered parallel work; folding its results into simulated state without a deterministic reduction can desync across peers",
                ),
            ),
        )
    } else {
        None
    }
}

// ---- Positions -----------------------------------------------------------------

/// The number of line feeds among the first `off` bytes, and the offset at
/// which the line holding `off` starts.
pub open spec fn line_info(bytes: Seq<u8>, off: int) -> (int, int)
    decreases off,
{
    if off <= 0 {
        (0, 0)
    } else {
        let (n, start) = line_info(bytes, off - 1);
        if off - 1 < bytes.len() && bytes[off - 1] == 10u8 {
            (n + 1, off)
        } else {
            (n, start)
        }
    }
}

/// The 1-based line and byte column of a byte offset, as
/// `gdck_syntax::LineIndex::line_col` reports them.
pub open spec fn line_col(bytes: Seq<u8>, off: u32) -> (u32, u32) {
    let (n, start) = line_info(bytes, off as int);
    (wrap32(n + 1), wrap32(off - start + 1))
}

/// `x` as a 32-bit value when it fits, else 0 (the only overflow possible
/// here is by one, onto 2^32).
pub open spec fn wrap32(x: int) -> u32 {
    if 0 <= x <= u32::MAX {
        x as u32
    } else {
        0
    }
}

proof fn lemma_line_info_bounds(bytes: Seq<u8>, off: int)
    requires
        off >= 0,
    ensures
        0 <= line_info(bytes, off).0 <= off,
        0 <= line_info(bytes, off).1 <= off,
    decreases off,
{
    if off > 0 {
        lemma_line_info_bounds(bytes, off - 1);
    }
}

/// The line and column of a byte offset.
pub fn line_col_of(bytes: &Vec<u8>, off: u32) -> (r: (u32, u32))
    ensures
        r == line_col(bytes@, off),
{
    let mut i: u32 = 0;
    let mut n: u32 = 0;
    let mut start: u32 = 0;
    while i < off
        invariant
            i <= off,
            (n as int, start as int) == line_info(bytes@, i as int),
        decreases off - i,
    {
        proof {
            lemma_line_info_bounds(bytes@, i as int);
        }
        if (i as usize) < bytes.len() && bytes[i as usize] == 10u8 {
            n = n + 1;
            start = i + 1;
        }
        i = i + 1;
    }
    proof {
        lemma_line_info_bounds(bytes@, off as int);
    }
    let line: u32 = if n < u32::MAX { n + 1 } else { 0 };
    let col: u32 = if off - start < u32::MAX { off - start + 1 } else { 0 };
    (line, col)
}


// ---- The float rule ------------------------------------------------------------

/// The listing's kinds and subtree ends are those of `recs`.
pub open spec fn shape_ok(recs: Seq<GdRecord>, kinds: Seq<GdKind>, ends: Seq<usize>) -> bool {
    &&& kinds.len() == recs.len()
    &&& ends.len() == recs.len()
    &&& forall|q: int| 0 <= q < recs.len() ==> #[trigger] kinds[q] == gd_kind(recs[q].kind@)
    &&& forall|q: int| 0 <= q < recs.len() ==> #[trigger] ends[q] as int == node_end(recs, q)
}

/// Some token of `toks` has kind `k`.
pub open spec fn has_token(toks: Seq<GdToken>, k: GdTokenKind) -> bool {
    exists|i: int| 0 <= i < toks.len() && gd_token_kind(#[trigger] toks[i].kind@) == k
}

fn has_token_exec(toks: &Vec<GdToken>, k: GdTokenKind) -> (r: bool)
    ensures
        r == has_token(toks@, k),
{
    let mut i: usize = 0;
    while i < toks.len()
        invariant
            i <= toks@.len(),
            forall|j: int| 0 <= j < i ==> gd_token_kind(#[trigger] toks@[j].kind@) != k,
        decreases toks.len() - i,
    {
        if token_kind_of(&toks[i].kind) == k {
            return true;
        }
        i = i + 1;
    }
    false
}

/// Whether the expression at `q` is float-ish: a float literal, a name in
/// `names` (the function's `: float` parameters and locals), or a
/// parenthesised, unary or binary expression over a float-ish operand.
pub open spec fn float_ish(recs: Seq<GdRecord>, names: Set<Seq<char>>, q: int) -> bool
    decreases recs.len() - q, 1int,
{
    if q < 0 || q >= recs.len() {
        false
    } else {
        let r = recs[q];
        match gd_kind(r.kind@) {
            GdKind::Literal => has_token(r.tokens@, GdTokenKind::Float),
            GdKind::NameRef => match ident_of(r.tokens@) {
                Some(n) => names.contains(n),
                None => false,
            },
            GdKind::ParenExpr => r.child_count > 0 && float_ish(recs, names, q + 1),
            GdKind::UnaryExpr => r.child_count > 0 && float_ish(recs, names, q + 1),
            GdKind::BinaryExpr => any_child_float(recs, names, q + 1, r.child_count as int),
            _ => false,
        }
    }
}

/// Whether one of `k` siblings starting at `cur` is float-ish.
pub open spec fn any_child_float(recs: Seq<GdRecord>, names: Set<Seq<char>>, cur: int, k: int) -> bool
    decreases recs.len() - cur + 1, 0int,
{
    if k <= 0 || cur < 0 || cur >= recs.len() {
        false
    } else {
        let e = node_end(recs, cur);
        float_ish(recs, names, cur) || any_child_float(
            recs,
            names,
            if e > cur && e <= recs.len() {
                e
            } else {
                cur + 1
            },
            k - 1,
        )
    }
}

fn contains_name(names: &Vec<Vec<char>>, x: &[char]) -> (r: bool)
    ensures
        r == exists|i: int| 0 <= i < names@.len() && #[trigger] names@[i]@ == x@,
{
    let mut i: usize = 0;
    while i < names.len()
        invariant
            i <= names@.len(),
            forall|j: int| 0 <= j < i ==> (#[trigger] names@[j])@ != x@,
        decreases names.len() - i,
    {
        if chars_eq(names[i].as_slice(), x) {
            return true;
        }
        i = i + 1;
    }
    false
}

/// The names a list holds, as a set.
pub open spec fn name_set(names: Seq<Vec<char>>) -> Set<Seq<char>> {
    Set::new(|x: Seq<char>| exists|i: int| 0 <= i < names.len() && #[trigger] names[i]@ == x)
}

fn float_ish_exec(
    recs: &Vec<GdRecord>,
    kinds: &Vec<GdKind>,
    ends: &Vec<usize>,
    names: &Vec<Vec<char>>,
    q: usize,
) -> (r: bool)
    requires
        shape_ok(recs@, kinds@, ends@),
        q < recs@.len(),
    ensures
        r == float_ish(recs@, name_set(names@), q as int),
    decreases recs@.len() - q,
{
    let n = recs.len();
    let r = &recs[q];
    match kinds[q] {
        GdKind::Literal => {
            let b = has_token_exec(&r.tokens, GdTokenKind::Float);
            assert(b == float_ish(recs@, name_set(names@), q as int));
            b
        },
        GdKind::NameRef => match ident_text(&r.tokens) {
            Some(id) => {
                let b = contains_name(names, id.as_slice());
                proof {
                    if name_set(names@).contains(id@) {
                        let i = choose|i: int| 0 <= i < names@.len() && #[trigger] names@[i]@ == id@;
                        assert(names@[i]@ == id@);
                    }
                }
                assert(b == float_ish(recs@, name_set(names@), q as int));
                b
            },
            None => {
                assert(!float_ish(recs@, name_set(names@), q as int));
                false
            },
        },
        GdKind::ParenExpr | GdKind::UnaryExpr => {
            let b = r.child_count > 0 && q + 1 < n && float_ish_exec(recs, kinds, ends, names, q + 1);
            proof {
                if q + 1 >= n {
                    assert(!float_ish(recs@, name_set(names@), q + 1));
                }
            }
            assert(b == float_ish(recs@, name_set(names@), q as int));
            b
        },
        GdKind::BinaryExpr => {
            let mut cur = q + 1;
            let mut k = r.child_count;
            while k > 0 && cur < n
                invariant
                    shape_ok(recs@, kinds@, ends@),
                    n == recs@.len(),
                    q < n,
                    q < cur <= n,
                    gd_kind(recs@[q as int].kind@) == GdKind::BinaryExpr,
                    any_child_float(recs@, name_set(names@), q + 1, recs@[q as int].child_count as int)
                        == any_child_float(recs@, name_set(names@), cur as int, k as int),
                decreases n - cur,
            {
                if float_ish_exec(recs, kinds, ends, names, cur) {
                    proof {
                        assert(any_child_float(recs@, name_set(names@), cur as int, k as int));
                        assert(float_ish(recs@, name_set(names@), q as int));
                    }
                    return true;
                }
                let e = ends[cur];
                cur = if e > cur && e <= n {
                    e
                } else {
                    cur + 1
                };
                k = k - 1;
            }
            proof {
                assert(!any_child_float(recs@, name_set(names@), cur as int, k as int));
                assert(!float_ish(recs@, name_set(names@), q as int));
            }
            false
        },
        _ => {
            assert(!float_ish(recs@, name_set(names@), q as int));
            false
        },
    }
}

/// The first direct child (among `k` siblings from `cur`) of kind `kind`.
pub open spec fn first_child_of(recs: Seq<GdRecord>, cur: int, k: int, kind: GdKind) -> Option<int>
    decreases recs.len() - cur + 1,
{
    if k <= 0 || cur < 0 || cur >= recs.len() {
        None
    } else if gd_kind(recs[cur].kind@) == kind {
        Some(cur)
    } else {
        first_child_of(recs, next_sib(recs, cur), k - 1, kind)
    }
}

/// The node at `q` declares `name` as a parameter or local typed `: float`.
pub open spec fn declares_float(recs: Seq<GdRecord>, q: int, name: Seq<char>) -> bool {
    &&& 0 <= q < recs.len()
    &&& (gd_kind(recs[q].kind@) == GdKind::Param || gd_kind(recs[q].kind@) == GdKind::VarDecl)
    &&& match first_child_of(recs, q + 1, recs[q].child_count as int, GdKind::TypeHint) {
        Some(h) => 0 <= h < recs.len() && ident_of(recs[h].tokens@) == Some("float"@),
        None => false,
    }
    &&& ident_of(recs[q].tokens@) == Some(name)
}

/// The names the function at `f` declares `: float` anywhere in its subtree.
pub open spec fn float_names(recs: Seq<GdRecord>, f: int) -> Set<Seq<char>> {
    Set::new(|x: Seq<char>| exists|q: int| f <= q < node_end(recs, f) && #[trigger] declares_float(recs, q, x))
}

fn find_child_of_kind(recs: &Vec<GdRecord>, kinds: &Vec<GdKind>, ends: &Vec<usize>, q: usize, kind: GdKind) -> (r: Option<usize>)
    requires
        shape_ok(recs@, kinds@, ends@),
        q < recs@.len(),
    ensures
        match r {
            Some(h) => (h as int) < recs@.len() && first_child_of(recs@, q + 1, recs@[q as int].child_count as int, kind) == Some(h as int),
            None => first_child_of(recs@, q + 1, recs@[q as int].child_count as int, kind) is None,
        },
{
    let n = recs.len();
    let mut cur = q + 1;
    let mut k = recs[q].child_count;
    while k > 0 && cur < n
        invariant
            shape_ok(recs@, kinds@, ends@),
            n == recs@.len(),
            q < cur <= n,
            first_child_of(recs@, q + 1, recs@[q as int].child_count as int, kind)
                == first_child_of(recs@, cur as int, k as int, kind),
        decreases n - cur,
    {
        if kinds[cur] == kind {
            return Some(cur);
        }
        let e = ends[cur];
        cur = if e > cur && e <= n {
            e
        } else {
            cur + 1
        };
        k = k - 1;
    }
    None
}

fn declared_float_name(recs: &Vec<GdRecord>, kinds: &Vec<GdKind>, ends: &Vec<usize>, q: usize) -> (r: Option<Vec<char>>)
    requires
        shape_ok(recs@, kinds@, ends@),
        q < recs@.len(),
    ensures
        match r {
            Some(v) => declares_float(recs@, q as int, v@),
            None => forall|x: Seq<char>| !declares_float(recs@, q as int, x),
        },
{
    let n = recs.len();
    if kinds[q] != GdKind::Param && kinds[q] != GdKind::VarDecl {
        return None;
    }
    let hint = find_child_of_kind(recs, kinds, ends, q, GdKind::TypeHint);
    match hint {
        None => None,
        Some(h) => {
            let is_float = match ident_text(&recs[h].tokens) {
                Some(t) => name_is(t.as_slice(), "float"),
                None => false,
            };
            if is_float {
                ident_text(&recs[q].tokens)
            } else {
                None
            }
        },
    }
}

fn collect_float_names(recs: &Vec<GdRecord>, kinds: &Vec<GdKind>, ends: &Vec<usize>, f: usize) -> (names: Vec<Vec<char>>)
    requires
        shape_ok(recs@, kinds@, ends@),
        f < recs@.len(),
    ensures
        name_set(names@) == float_names(recs@, f as int),
{
    let end = ends[f];
    proof {
        lemma_end_bounds(recs@, f as int, 0);
    }
    let mut names: Vec<Vec<char>> = Vec::new();
    let mut q = f;
    while q < end
        invariant
            shape_ok(recs@, kinds@, ends@),
            f <= q <= end,
            end as int == node_end(recs@, f as int),
            end <= recs@.len(),
            forall|x: Seq<char>| name_set(names@).contains(x) <==> exists|qq: int| f <= qq < q && #[trigger] declares_float(recs@, qq, x),
        decreases end - q,
    {
        let ghost before = names@;
        match declared_float_name(recs, kinds, ends, q) {
            Some(v) => {
                names.push(v);
                proof {
                    assert forall|x: Seq<char>| name_set(names@).contains(x) <==> exists|qq: int| f <= qq < q + 1 && #[trigger] declares_float(recs@, qq, x) by {
                        if name_set(names@).contains(x) {
                            let i = choose|i: int| 0 <= i < names@.len() && #[trigger] names@[i]@ == x;
                            if i < before.len() {
                                assert(before[i]@ == x);
                                assert(name_set(before).contains(x));
                            }
                        }
                        if exists|qq: int| f <= qq < q + 1 && #[trigger] declares_float(recs@, qq, x) {
                            let qq = choose|qq: int| f <= qq < q + 1 && #[trigger] declares_float(recs@, qq, x);
                            if qq < q {
                                assert(name_set(before).contains(x));
                                let i = choose|i: int| 0 <= i < before.len() && #[trigger] before[i]@ == x;
                                assert(names@[i]@ == x);
                            } else {
                                assert(names@[names@.len() - 1]@ == x);
                            }
                        }
                    }
                }
            },
            None => {
                proof {
                    assert forall|x: Seq<char>| name_set(names@).contains(x) <==> exists|qq: int| f <= qq < q + 1 && #[trigger] declares_float(recs@, qq, x) by {
                        if exists|qq: int| f <= qq < q + 1 && #[trigger] declares_float(recs@, qq, x) {
                            let qq = choose|qq: int| f <= qq < q + 1 && #[trigger] declares_float(recs@, qq, x);
                            assert(qq < q);
                        }
                    }
                }
            },
        }
        q = q + 1;
    }
    proof {
        assert(name_set(names@) =~= float_names(recs@, f as int));
    }
    names
}

/// The node at `q` is float arithmetic the rule reports: a binary `+ - * /`
/// or a compound `+= -= *= /=` with two operands, one of them float-ish.
pub open spec fn qualifies(recs: Seq<GdRecord>, names: Set<Seq<char>>, q: int) -> bool {
    &&& 0 <= q < recs.len()
    &&& recs[q].child_count == 2
    &&& ((gd_kind(recs[q].kind@) == GdKind::BinaryExpr && has_token(recs[q].tokens@, GdTokenKind::Arith))
        || (gd_kind(recs[q].kind@) == GdKind::AssignStmt && has_token(
        recs[q].tokens@,
        GdTokenKind::CompoundArith,
    )))
    &&& (float_ish(recs, names, q + 1) || float_ish(recs, names, next_sib(recs, q + 1)))
}

fn qualifies_exec(recs: &Vec<GdRecord>, kinds: &Vec<GdKind>, ends: &Vec<usize>, names: &Vec<Vec<char>>, q: usize) -> (r: bool)
    requires
        shape_ok(recs@, kinds@, ends@),
        q < recs@.len(),
    ensures
        r == qualifies(recs@, name_set(names@), q as int),
{
    let n = recs.len();
    if recs[q].child_count != 2 {
        return false;
    }
    let op = (kinds[q] == GdKind::BinaryExpr && has_token_exec(&recs[q].tokens, GdTokenKind::Arith)) || (
    kinds[q] == GdKind::AssignStmt && has_token_exec(&recs[q].tokens, GdTokenKind::CompoundArith));
    if !op {
        return false;
    }
    if q + 1 >= n {
        return false;
    }
    if float_ish_exec(recs, kinds, ends, names, q + 1) {
        return true;
    }
    let e = ends[q + 1];
    let second = if e > q + 1 && e <= n {
        e
    } else {
        q + 2
    };
    second < n && float_ish_exec(recs, kinds, ends, names, second)
}

/// The positions, in pre-order, of the float arithmetic reported under the
/// node at `q`: a qualifying node is reported unless it lies inside another
/// qualifying node (so a chain `a + b + c` is reported once, outermost).
pub open spec fn chain_sites(recs: Seq<GdRecord>, names: Set<Seq<char>>, q: int, inside: bool) -> Seq<int>
    decreases recs.len() - q, 1int,
{
    if q < 0 || q >= recs.len() {
        Seq::empty()
    } else {
        let here = qualifies(recs, names, q);
        (if here && !inside {
            seq![q]
        } else {
            Seq::empty()
        }) + chain_children(recs, names, q + 1, recs[q].child_count as int, inside || here)
    }
}

/// The reported positions under `k` siblings starting at `cur`.
pub open spec fn chain_children(recs: Seq<GdRecord>, names: Set<Seq<char>>, cur: int, k: int, inside: bool) -> Seq<int>
    decreases recs.len() - cur + 1, 0int,
{
    if k <= 0 || cur < 0 || cur >= recs.len() {
        Seq::empty()
    } else {
        let e = node_end(recs, cur);
        chain_sites(recs, names, cur, inside) + chain_children(
            recs,
            names,
            if e > cur && e <= recs.len() {
                e
            } else {
                cur + 1
            },
            k - 1,
            inside,
        )
    }
}

fn chain_sites_exec(
    recs: &Vec<GdRecord>,
    kinds: &Vec<GdKind>,
    ends: &Vec<usize>,
    names: &Vec<Vec<char>>,
    q: usize,
    inside: bool,
    out: &mut Vec<usize>,
)
    requires
        shape_ok(recs@, kinds@, ends@),
        q < recs@.len(),
        forall|m: int| 0 <= m < old(out)@.len() ==> (#[trigger] old(out)@[m] as int) < recs@.len(),
    ensures
        forall|m: int| 0 <= m < final(out)@.len() ==> (#[trigger] final(out)@[m] as int) < recs@.len(),
        final(out)@.map_values(|x: usize| x as int) == old(out)@.map_values(|x: usize| x as int) + chain_sites(
            recs@,
            name_set(names@),
            q as int,
            inside,
        ),
    decreases recs@.len() - q,
{
    let ghost ns = name_set(names@);
    let n = recs.len();
    let here = qualifies_exec(recs, kinds, ends, names, q);
    let ghost start = old(out)@.map_values(|x: usize| x as int);
    if here && !inside {
        out.push(q);
    }
    proof {
        let own: Seq<int> = if here && !inside { seq![q as int] } else { Seq::empty() };
        assert(out@.map_values(|x: usize| x as int) =~= start + own);
    }
    let ci = inside || here;
    let mut cur = q + 1;
    let mut k = recs[q].child_count;
    while k > 0 && cur < n
        invariant
            shape_ok(recs@, kinds@, ends@),
            n == recs@.len(),
            q < cur <= n,
            ns == name_set(names@),
            ci == (inside || qualifies(recs@, ns, q as int)),
            forall|m: int| 0 <= m < out@.len() ==> (#[trigger] out@[m] as int) < recs@.len(),
            start + chain_sites(recs@, ns, q as int, inside) == out@.map_values(|x: usize| x as int)
                + chain_children(recs@, ns, cur as int, k as int, ci),
        decreases n - cur,
    {
        let ghost before = out@.map_values(|x: usize| x as int);
        chain_sites_exec(recs, kinds, ends, names, cur, ci, out);
        let e = ends[cur];
        let next = if e > cur && e <= n {
            e
        } else {
            cur + 1
        };
        proof {
            let rest = chain_children(recs@, ns, next as int, k - 1, ci);
            assert(chain_children(recs@, ns, cur as int, k as int, ci) == chain_sites(recs@, ns, cur as int, ci) + rest);
            assert(before + (chain_sites(recs@, ns, cur as int, ci) + rest) == (before + chain_sites(recs@, ns, cur as int, ci)) + rest);
        }
        cur = next;
        k = k - 1;
    }
    proof {
        assert(chain_children(recs@, ns, cur as int, k as int, ci) == Seq::<int>::empty());
        assert(out@.map_values(|x: usize| x as int) + Seq::<int>::empty() =~= out@.map_values(|x: usize| x as int));
    }
}

/// The smaller of two optional offsets.
pub open spec fn min_opt(a: Option<u32>, b: Option<u32>) -> Option<u32> {
    match (a, b) {
        (Some(x), Some(y)) => Some(if x <= y { x } else { y }),
        (Some(x), None) => Some(x),
        (None, _) => b,
    }
}

/// The least start offset of a non-trivia token among `toks`.
pub open spec fn tok_min(toks: Seq<GdToken>) -> Option<u32>
    decreases toks.len(),
{
    if toks.len() == 0 {
        None
    } else {
        let rest = tok_min(toks.drop_first());
        if gd_token_kind(toks[0].kind@) == GdTokenKind::Trivia {
            rest
        } else {
            min_opt(Some(toks[0].start), rest)
        }
    }
}

/// The least start offset of a non-trivia token among the nodes at
/// positions `a..b`.
pub open spec fn range_min(recs: Seq<GdRecord>, a: int, b: int) -> Option<u32>
    decreases b - a,
{
    if a >= b || a < 0 || a >= recs.len() {
        None
    } else {
        min_opt(tok_min(recs[a].tokens@), range_min(recs, a + 1, b))
    }
}

/// Where a finding on the node at `q` is reported: its first real
/// (non-trivia) token, or the node's own start if it has none.
pub open spec fn report_offset(recs: Seq<GdRecord>, q: int) -> u32 {
    match range_min(recs, q, node_end(recs, q)) {
        Some(o) => o,
        None => recs[q].start,
    }
}

fn min_opt_exec(a: Option<u32>, b: Option<u32>) -> (r: Option<u32>)
    ensures
        r == min_opt(a, b),
{
    match (a, b) {
        (Some(x), Some(y)) => Some(if x <= y { x } else { y }),
        (Some(x), None) => Some(x),
        (None, _) => b,
    }
}

fn tok_min_exec(toks: &Vec<GdToken>) -> (r: Option<u32>)
    ensures
        r == tok_min(toks@),
{
    let mut acc: Option<u32> = None;
    let mut i: usize = 0;
    assert(toks@.skip(0) =~= toks@);
    while i < toks.len()
        invariant
            i <= toks@.len(),
            tok_min(toks@) == min_opt(acc, tok_min(toks@.skip(i as int))),
        decreases toks.len() - i,
    {
        proof {
            assert(toks@.skip(i as int)[0] == toks@[i as int]);
            assert(toks@.skip(i as int).drop_first() =~= toks@.skip(i + 1));
        }
        if token_kind_of(&toks[i].kind) != GdTokenKind::Trivia {
            acc = min_opt_exec(acc, Some(toks[i].start));
        }
        i = i + 1;
    }
    acc
}

fn report_offset_exec(recs: &Vec<GdRecord>, kinds: &Vec<GdKind>, ends: &Vec<usize>, q: usize) -> (r: u32)
    requires
        shape_ok(recs@, kinds@, ends@),
        q < recs@.len(),
    ensures
        r == report_offset(recs@, q as int),
{
    let end = ends[q];
    proof {
        lemma_end_bounds(recs@, q as int, 0);
    }
    let mut acc: Option<u32> = None;
    let mut a = q;
    while a < end
        invariant
            shape_ok(recs@, kinds@, ends@),
            q <= a <= end,
            end <= recs@.len(),
            end as int == node_end(recs@, q as int),
            range_min(recs@, q as int, end as int) == min_opt(acc, range_min(recs@, a as int, end as int)),
        decreases end - a,
    {
        let t = tok_min_exec(&recs[a].tokens);
        acc = min_opt_exec(acc, t);
        a = a + 1;
    }
    match acc {
        Some(o) => o,
        None => recs[q].start,
    }
}


// ---- Findings --------------------------------------------------------------------

/// A finding at byte offset `off` of a file.
pub open spec fn site_view(file: Seq<char>, bytes: Seq<u8>, off: u32, rule: Seq<char>, message: Seq<char>) -> FindingView {
    let (line, column) = line_col(bytes, off);
    FindingView { file, line, column, rule, message }
}

fn make_finding(file: &String, bytes: &Vec<u8>, off: u32, rule: String, message: String) -> (f: Finding)
    ensures
        f@ == site_view(file@, bytes@, off, rule@, message@),
{
    let (line, column) = line_col_of(bytes, off);
    Finding { file: file.clone(), line, column, rule, message }
}

/// A parsed file: its path, its bytes and its syntax.
pub struct GdFile {
    pub path: String,
    pub bytes: Vec<u8>,
    pub syntax: GdSyntax,
}

/// The unconditional finding on the node at `p`, if any.
pub open spec fn uncond_at(f: GdFile, p: int) -> Seq<FindingView> {
    let recs = f.syntax.records@;
    if 0 <= p < recs.len() && gd_kind(recs[p].kind@) == GdKind::CallExpr {
        match callee(recs, p) {
            Some(c) => match unconditional_rule(c) {
                Some((rule, msg)) => seq![site_view(f.path@, f.bytes@, recs[p].start, rule, msg)],
                None => Seq::empty(),
            },
            None => Seq::empty(),
        }
    } else {
        Seq::empty()
    }
}

/// The unconditional findings on the first `m` nodes of a file.
pub open spec fn uncond_upto(f: GdFile, m: int) -> Seq<FindingView>
    decreases m,
{
    if m <= 0 {
        Seq::empty()
    } else {
        uncond_upto(f, m - 1) + uncond_at(f, m - 1)
    }
}

/// The unconditional findings of the first `i` files.
pub open spec fn uncond_files(files: Seq<GdFile>, i: int) -> Seq<FindingView>
    decreases i,
{
    if i <= 0 || i > files.len() {
        Seq::empty()
    } else {
        uncond_files(files, i - 1) + uncond_upto(files[i - 1], files[i - 1].syntax.records@.len() as int)
    }
}

/// The name of the function declared at `p`, if a function is declared there.
pub open spec fn func_name_at(recs: Seq<GdRecord>, p: int) -> Option<Seq<char>> {
    if 0 <= p < recs.len() && gd_kind(recs[p].kind@) == GdKind::FuncDecl {
        ident_of(recs[p].tokens@)
    } else {
        None
    }
}

/// The position of the last `.` in `s`, or -1.
pub open spec fn last_dot(s: Seq<char>) -> int
    decreases s.len(),
{
    if s.len() == 0 {
        -1
    } else if s.last() == '.' {
        s.len() - 1
    } else {
        last_dot(s.drop_last())
    }
}

/// The last `.`-separated segment of a callee (`self.foo` calls `foo`).
pub open spec fn last_segment(s: Seq<char>) -> Seq<char> {
    s.skip(last_dot(s) + 1)
}

proof fn lemma_last_dot_bounds(s: Seq<char>)
    ensures
        -1 <= last_dot(s) < s.len(),
    decreases s.len(),
{
    if s.len() > 0 {
        lemma_last_dot_bounds(s.drop_last());
    }
}

fn last_segment_exec(s: &[char]) -> (r: Vec<char>)
    ensures
        r@ == last_segment(s@),
{
    let mut start: usize = 0;
    let mut i: usize = 0;
    while i < s.len()
        invariant
            i <= s@.len(),
            start as int == last_dot(s@.take(i as int)) + 1,
        decreases s.len() - i,
    {
        proof {
            assert(s@.take(i + 1).drop_last() =~= s@.take(i as int));
        }
        if s[i] == '.' {
            start = i + 1;
        }
        i = i + 1;
    }
    proof {
        assert(s@.take(s@.len() as int) =~= s@);
        lemma_last_dot_bounds(s@);
    }
    crate::text::slice_chars(s, start, s.len())
}

/// The call edges from the function `name` made by the calls at positions
/// `q..e`.
pub open spec fn calls_in(recs: Seq<GdRecord>, name: Seq<char>, q: int, e: int) -> Seq<(Seq<char>, Seq<char>)>
    decreases e - q,
{
    if q >= e {
        Seq::empty()
    } else {
        calls_in(recs, name, q, e - 1) + if 0 <= e - 1 < recs.len() && gd_kind(recs[e - 1].kind@)
            == GdKind::CallExpr {
            match callee(recs, e - 1) {
                Some(c) => seq![(name, last_segment(c))],
                None => Seq::empty(),
            }
        } else {
            Seq::empty()
        }
    }
}

/// The call edges of the functions declared at the first `m` nodes.
pub open spec fn edges_upto(recs: Seq<GdRecord>, m: int) -> Seq<(Seq<char>, Seq<char>)>
    decreases m,
{
    if m <= 0 {
        Seq::empty()
    } else {
        edges_upto(recs, m - 1) + match func_name_at(recs, m - 1) {
            Some(name) => calls_in(recs, name, m - 1, node_end(recs, m - 1)),
            None => Seq::empty(),
        }
    }
}

/// The call edges of the first `i` files.
pub open spec fn edges_files(files: Seq<GdFile>, i: int) -> Seq<(Seq<char>, Seq<char>)>
    decreases i,
{
    if i <= 0 || i > files.len() {
        Seq::empty()
    } else {
        edges_files(files, i - 1) + edges_upto(files[i - 1].syntax.records@, files[i - 1].syntax.records@.len() as int)
    }
}

/// Some file declares a function called `name`.
pub open spec fn defined(files: Seq<GdFile>, name: Seq<char>) -> bool {
    exists|i: int, p: int| 0 <= i < files.len() && #[trigger] func_name_at(files[i].syntax.records@, p) == Some(name)
}

/// The reachability roots: `_process` and `_physics_process`, those of them
/// some file declares.
pub open spec fn gd_roots(files: Seq<GdFile>) -> Seq<Seq<char>> {
    (if defined(files, "_process"@) {
        seq!["_process"@]
    } else {
        Seq::empty()
    }) + (if defined(files, "_physics_process"@) {
        seq!["_physics_process"@]
    } else {
        Seq::empty()
    })
}

/// The message of the float rule.
pub open spec fn float_message() -> Seq<char> {
    "float arithmetic reachable from _process/_physics_process; non-associative reordering can desync across peers"@
}

/// The float findings of the function declared at `p`, when its name is
/// reachable.
pub open spec fn float_at(f: GdFile, p: int, reach: spec_fn(Seq<char>) -> bool) -> Seq<FindingView> {
    let recs = f.syntax.records@;
    match func_name_at(recs, p) {
        Some(name) => if reach(name) {
            chain_sites(recs, float_names(recs, p), p, false).map_values(
                |q: int| site_view(f.path@, f.bytes@, report_offset(recs, q), "float_outside_fixed_step"@, float_message()),
            )
        } else {
            Seq::empty()
        },
        None => Seq::empty(),
    }
}

/// The float findings of the functions declared at the first `m` nodes.
pub open spec fn float_upto(f: GdFile, m: int, reach: spec_fn(Seq<char>) -> bool) -> Seq<FindingView>
    decreases m,
{
    if m <= 0 {
        Seq::empty()
    } else {
        float_upto(f, m - 1, reach) + float_at(f, m - 1, reach)
    }
}

/// The float findings of the first `i` files.
pub open spec fn float_files(files: Seq<GdFile>, i: int, reach: spec_fn(Seq<char>) -> bool) -> Seq<FindingView>
    decreases i,
{
    if i <= 0 || i > files.len() {
        Seq::empty()
    } else {
        float_files(files, i - 1, reach) + float_upto(files[i - 1], files[i - 1].syntax.records@.len() as int, reach)
    }
}

/// The function names reachable from the roots over the project's call edges.
pub open spec fn gd_reachable(files: Seq<GdFile>) -> spec_fn(Seq<char>) -> bool {
    |name: Seq<char>| name_reachable(edges_files(files, files.len() as int), gd_roots(files), name)
}

/// Every finding of a project, before sorting: the unconditional rules over
/// every file, then the float rule over every reachable function.
pub open spec fn gd_collected(files: Seq<GdFile>) -> Seq<FindingView> {
    uncond_files(files, files.len() as int) + float_files(files, files.len() as int, gd_reachable(files))
}

/// The result of checking a project.
pub struct GdReport {
    /// The findings, sorted and without duplicates.
    pub findings: Vec<Finding>,
    /// The distinct names of the functions the project declares.
    pub functions: Vec<String>,
    /// The distinct names reachable from `_process`/`_physics_process`.
    pub reachable: Vec<String>,
    /// The number of syntax errors the parser recovered from (saturating).
    pub parse_errors: usize,
}

/// The total of the files' syntax error counts, saturating.
pub open spec fn errors_upto(files: Seq<GdFile>, i: int) -> int
    decreases i,
{
    if i <= 0 || i > files.len() {
        0
    } else {
        let t = errors_upto(files, i - 1) + files[i - 1].syntax.error_count;
        if t > usize::MAX {
            usize::MAX as int
        } else {
            t
        }
    }
}

fn push_views(out: &mut Vec<Finding>, f: Finding)
    ensures
        views(final(out)@) == views(old(out)@).push(f@),
{
    out.push(f);
    assert(views(out@) =~= views(old(out)@).push(f@));
}

fn uncond_file(f: &GdFile, kinds: &Vec<GdKind>, ends: &Vec<usize>, out: &mut Vec<Finding>)
    requires
        shape_ok(f.syntax.records@, kinds@, ends@),
    ensures
        views(final(out)@) == views(old(out)@) + uncond_upto(*f, f.syntax.records@.len() as int),
{
    let recs = &f.syntax.records;
    let n = recs.len();
    let mut p: usize = 0;
    while p < n
        invariant
            shape_ok(recs@, kinds@, ends@),
            recs@ == f.syntax.records@,
            n == recs@.len(),
            p <= n,
            views(out@) == views(old(out)@) + uncond_upto(*f, p as int),
        decreases n - p,
    {
        let ghost before = views(out@);
        if kinds[p] == GdKind::CallExpr {
            match callee_text(recs, kinds, p) {
                Some(c) => match classify_callee(c.as_slice()) {
                    Some((rule, msg)) => {
                        let fd = make_finding(&f.path, &f.bytes, recs[p].start, rule, msg);
                        push_views(out, fd);
                    },
                    None => {},
                },
                None => {},
            }
        }
        proof {
            assert(views(out@) =~= before + uncond_at(*f, p as int));
        }
        p = p + 1;
    }
}

fn calls_in_exec(
    recs: &Vec<GdRecord>,
    kinds: &Vec<GdKind>,
    name: &String,
    q0: usize,
    e: usize,
    edges: &mut Vec<(String, String)>,
)
    requires
        kinds@.len() == recs@.len(),
        forall|q: int| 0 <= q < recs@.len() ==> #[trigger] kinds@[q] == gd_kind(recs@[q].kind@),
        q0 <= e <= recs@.len(),
    ensures
        pairs_view(final(edges)@) == pairs_view(old(edges)@) + calls_in(recs@, name@, q0 as int, e as int),
{
    let mut q = q0;
    while q < e
        invariant
            kinds@.len() == recs@.len(),
            forall|qq: int| 0 <= qq < recs@.len() ==> #[trigger] kinds@[qq] == gd_kind(recs@[qq].kind@),
            q0 <= q <= e,
            e <= recs@.len(),
            pairs_view(edges@) == pairs_view(old(edges)@) + calls_in(recs@, name@, q0 as int, q as int),
        decreases e - q,
    {
        let ghost before = pairs_view(edges@);
        if kinds[q] == GdKind::CallExpr {
            match callee_text(recs, kinds, q) {
                Some(c) => {
                    let seg = last_segment_exec(c.as_slice());
                    edges.push((name.clone(), string_from(seg.as_slice())));
                    assert(pairs_view(edges@) =~= before.push((name@, seg@)));
                },
                None => {},
            }
        }
        proof {
            let step: Seq<(Seq<char>, Seq<char>)> = if gd_kind(recs@[q as int].kind@) == GdKind::CallExpr {
                match callee(recs@, q as int) {
                    Some(c) => seq![(name@, last_segment(c))],
                    None => Seq::empty(),
                }
            } else {
                Seq::empty()
            };
            assert(calls_in(recs@, name@, q0 as int, q + 1) == calls_in(recs@, name@, q0 as int, q as int) + step);
            assert(pairs_view(edges@) =~= before + step);
        }
        q = q + 1;
    }
}

/// `x` is the name of a function declared in one of the first `i` files,
/// or at one of the first `p` nodes of file `i`.
spec fn declared_before(files: Seq<GdFile>, i: int, p: int, x: Seq<char>) -> bool {
    ||| exists|j: int, pp: int| 0 <= j < i && #[trigger] func_name_at(files[j].syntax.records@, pp) == Some(x)
    ||| exists|pp: int| 0 <= pp < p && #[trigger] func_name_at(files[i].syntax.records@, pp) == Some(x)
}

proof fn lemma_intern_contains(before: Seq<String>, after: Seq<String>, ix: usize, x: Seq<char>, y: Seq<char>)
    requires
        (ix as int) < after.len(),
        after[ix as int]@ == x,
        before.len() <= after.len() <= before.len() + 1,
        forall|j: int| 0 <= j < before.len() ==> #[trigger] after[j] == before[j],
        after.len() == before.len() + 1 ==> (ix as int) == before.len(),
    ensures
        texts(after).contains(y) <==> (texts(before).contains(y) || y == x),
{
    if texts(after).contains(y) {
        let j = choose|j: int| 0 <= j < texts(after).len() && texts(after)[j] == y;
        if j < before.len() {
            assert(texts(before)[j] == y);
        } else {
            assert(j == ix as int);
        }
    }
    if texts(before).contains(y) {
        let j = choose|j: int| 0 <= j < texts(before).len() && texts(before)[j] == y;
        assert(texts(after)[j] == y);
    }
    if y == x {
        assert(texts(after)[ix as int] == y);
    }
}

fn float_file(
    f: &GdFile,
    kinds: &Vec<GdKind>,
    ends: &Vec<usize>,
    reachable: &Vec<String>,
    Ghost(reach): Ghost<spec_fn(Seq<char>) -> bool>,
    out: &mut Vec<Finding>,
)
    requires
        shape_ok(f.syntax.records@, kinds@, ends@),
        forall|x: Seq<char>| #[trigger] texts(reachable@).contains(x) <==> reach(x),
    ensures
        views(final(out)@) == views(old(out)@) + float_upto(*f, f.syntax.records@.len() as int, reach),
{
    let recs = &f.syntax.records;
    let n = recs.len();
    let mut p: usize = 0;
    while p < n
        invariant
            shape_ok(recs@, kinds@, ends@),
            recs@ == f.syntax.records@,
            n == recs@.len(),
            p <= n,
            forall|x: Seq<char>| #[trigger] texts(reachable@).contains(x) <==> reach(x),
            views(out@) == views(old(out)@) + float_upto(*f, p as int, reach),
        decreases n - p,
    {
        let ghost before = views(out@);
        if kinds[p] == GdKind::FuncDecl {
            match ident_text(&recs[p].tokens) {
                Some(nm) => {
                    let name = string_from(nm.as_slice());
                    let found = index_of(reachable, &name);
                    proof {
                        if reach(nm@) {
                            assert(texts(reachable@).contains(nm@));
                            let j = choose|j: int| 0 <= j < texts(reachable@).len() && texts(reachable@)[j] == nm@;
                            assert(reachable@[j]@ == nm@);
                        }
                        if found is Some {
                            assert(texts(reachable@)[found->0 as int] == nm@);
                            assert(texts(reachable@).contains(nm@));
                        }
                        assert(func_name_at(recs@, p as int) == Some(nm@));
                    }
                    if found.is_some() {
                        let names = collect_float_names(recs, kinds, ends, p);
                        let mut sites: Vec<usize> = Vec::new();
                        chain_sites_exec(recs, kinds, ends, &names, p, false, &mut sites);
                        let ghost ss = chain_sites(recs@, float_names(recs@, p as int), p as int, false);
                        proof {
                            assert(sites@.map_values(|x: usize| x as int) =~= ss);
                        }
                        let mut t: usize = 0;
                        while t < sites.len()
                            invariant
                                shape_ok(recs@, kinds@, ends@),
                                recs@ == f.syntax.records@,
                                t <= sites@.len(),
                                sites@.map_values(|x: usize| x as int) == ss,
                                forall|m: int| 0 <= m < sites@.len() ==> (#[trigger] sites@[m] as int) < recs@.len(),
                                views(out@) == before + ss.take(t as int).map_values(
                                    |q: int| site_view(f.path@, f.bytes@, report_offset(recs@, q), "float_outside_fixed_step"@, float_message()),
                                ),
                            decreases sites.len() - t,
                        {
                            let q = sites[t];
                            let off = report_offset_exec(recs, kinds, ends, q);
                            let fd = make_finding(
                                &f.path,
                                &f.bytes,
                                off,
                                chars_to_string("float_outside_fixed_step"),
                                chars_to_string("float arithmetic reachable from _process/_physics_process; non-associative reordering can desync across peers"),
                            );
                            push_views(out, fd);
                            proof {
                                assert(ss[t as int] == q as int);
                                assert(ss.take(t + 1) =~= ss.take(t as int).push(q as int));
                                assert(views(out@) =~= before + ss.take(t + 1).map_values(
                                    |q: int| site_view(f.path@, f.bytes@, report_offset(recs@, q), "float_outside_fixed_step"@, float_message()),
                                ));
                            }
                            t = t + 1;
                        }
                        proof {
                            assert(ss.take(ss.len() as int) =~= ss);
                            assert(float_at(*f, p as int, reach) == ss.map_values(
                                |q: int| site_view(f.path@, f.bytes@, report_offset(recs@, q), "float_outside_fixed_step"@, float_message()),
                            ));
                        }
                    } else {
                        proof {
                            assert(float_at(*f, p as int, reach) == Seq::<FindingView>::empty());
                            assert(views(out@) =~= before + Seq::<FindingView>::empty());
                        }
                    }
                },
                None => {
                    proof {
                        assert(func_name_at(recs@, p as int) is None);
                        assert(views(out@) =~= before + float_at(*f, p as int, reach));
                    }
                },
            }
        } else {
            proof {
                assert(func_name_at(recs@, p as int) is None);
                assert(views(out@) =~= before + float_at(*f, p as int, reach));
            }
        }
        proof {
            assert(views(out@) =~= before + float_at(*f, p as int, reach));
        }
        p = p + 1;
    }
}

/// The names reachable in a project, as `lint_parsed` reports them.
pub open spec fn is_reachable_in(files: Seq<GdFile>, x: Seq<char>) -> bool {
    name_reachable(edges_files(files, files.len() as int), gd_roots(files), x)
}

/// What checking the parsed files `files` reports: the collected findings
/// sorted by place without duplicates, the declared function names, the
/// names reachable from the roots, and the total of the syntax errors.
pub open spec fn report_of(files: Seq<GdFile>, r: GdReport) -> bool {
    &&& sorted_dedup_views(gd_collected(files), views(r.findings@))
    &&& texts(r.functions@).no_duplicates()
    &&& forall|x: Seq<char>| #[trigger] texts(r.functions@).contains(x) <==> defined(files, x)
    &&& texts(r.reachable@).no_duplicates()
    &&& forall|x: Seq<char>| #[trigger] texts(r.reachable@).contains(x) <==> is_reachable_in(files, x)
    &&& r.parse_errors as int == errors_upto(files, files.len() as int)
}

/// `files` are the sources `(path, text)` as parsed: same paths, the
/// texts' UTF-8 bytes, and the syntax `gdck_syntax` builds for each text.
pub open spec fn parsed_from(files: Seq<GdFile>, sources: Seq<(String, String)>) -> bool {
    &&& files.len() == sources.len()
    &&& forall|i: int| 0 <= i < files.len() ==> {
        &&& (#[trigger] files[i]).path@ == sources[i].0@
        &&& files[i].bytes@ == encode_utf8(sources[i].1@)
        &&& files[i].syntax == gdscript_syntax(sources[i].1@)
    }
}

/// Parses each source `(path, text)` and checks the project as
/// `lint_parsed` does.
pub fn lint_sources(sources: &Vec<(String, String)>) -> (r: GdReport)
    ensures
        exists|files: Seq<GdFile>| parsed_from(files, sources@) && #[trigger] report_of(files, r),
{
    let mut files: Vec<GdFile> = Vec::new();
    let mut i: usize = 0;
    while i < sources.len()
        invariant
            i <= sources@.len(),
            files@.len() == i,
            forall|j: int| 0 <= j < i ==> {
                &&& (#[trigger] files@[j]).path@ == sources@[j].0@
                &&& files@[j].bytes@ == encode_utf8(sources@[j].1@)
                &&& files@[j].syntax == gdscript_syntax(sources@[j].1@)
            },
        decreases sources.len() - i,
    {
        let text = sources[i].1.as_str();
        let syntax = parse_gdscript(text);
        let bytes = text.as_bytes_vec();
        files.push(GdFile { path: sources[i].0.clone(), bytes, syntax });
        i = i + 1;
    }
    let r = lint_parsed(&files);
    proof {
        assert(parsed_from(files@, sources@));
    }
    r
}

/// Checks a parsed GDScript project: the unconditional rules on every call,
/// and the float rule on every function reachable from `_process` or
/// `_physics_process`, reported sorted by place with duplicates dropped.
pub fn lint_parsed(files: &Vec<GdFile>) -> (r: GdReport)
    ensures
        report_of(files@, r),
{
    let nf = files.len();
    let mut shapes: Vec<(Vec<GdKind>, Vec<usize>)> = Vec::new();
    let mut i: usize = 0;
    while i < nf
        invariant
            nf == files@.len(),
            i <= nf,
            shapes@.len() == i,
            forall|j: int| 0 <= j < i ==> #[trigger] shape_ok(files@[j].syntax.records@, shapes@[j].0@, shapes@[j].1@),
        decreases nf - i,
    {
        let recs = &files[i].syntax.records;
        let mut kinds: Vec<GdKind> = Vec::new();
        let mut p: usize = 0;
        while p < recs.len()
            invariant
                p <= recs@.len(),
                kinds@.len() == p,
                forall|q: int| 0 <= q < p ==> #[trigger] kinds@[q] == gd_kind(recs@[q].kind@),
            decreases recs.len() - p,
        {
            kinds.push(kind_of(&recs[p].kind));
            p = p + 1;
        }
        let ends = compute_ends(recs);
        let ghost s0 = shapes@;
        shapes.push((kinds, ends));
        proof {
            assert forall|j: int| 0 <= j < i + 1 implies #[trigger] shape_ok(files@[j].syntax.records@, shapes@[j].0@, shapes@[j].1@) by {
                if j < i {
                    assert(shapes@[j] == s0[j]);
                }
            }
        }
        i = i + 1;
    }
    let mut found: Vec<Finding> = Vec::new();
    let mut parse_errors: usize = 0;
    i = 0;
    while i < nf
        invariant
            nf == files@.len(),
            i <= nf,
            shapes@.len() == nf,
            forall|j: int| 0 <= j < nf ==> #[trigger] shape_ok(files@[j].syntax.records@, shapes@[j].0@, shapes@[j].1@),
            views(found@) == uncond_files(files@, i as int),
            parse_errors as int == errors_upto(files@, i as int),
        decreases nf - i,
    {
        proof {
            assert(shape_ok(files@[i as int].syntax.records@, shapes@[i as int].0@, shapes@[i as int].1@));
        }
        uncond_file(&files[i], &shapes[i].0, &shapes[i].1, &mut found);
        parse_errors = parse_errors.saturating_add(files[i].syntax.error_count);
        i = i + 1;
    }
    let mut functions: Vec<String> = Vec::new();
    let mut edges: Vec<(String, String)> = Vec::new();
    i = 0;
    while i < nf
        invariant
            nf == files@.len(),
            i <= nf,
            shapes@.len() == nf,
            forall|j: int| 0 <= j < nf ==> #[trigger] shape_ok(files@[j].syntax.records@, shapes@[j].0@, shapes@[j].1@),
            pairs_view(edges@) == edges_files(files@, i as int),
            texts(functions@).no_duplicates(),
            forall|x: Seq<char>| #[trigger] texts(functions@).contains(x) <==> exists|j: int, pp: int|
                0 <= j < i && #[trigger] func_name_at(files@[j].syntax.records@, pp) == Some(x),
        decreases nf - i,
    {
        let recs = &files[i].syntax.records;
        let kinds = &shapes[i].0;
        let ends = &shapes[i].1;
        proof {
            assert(shape_ok(files@[i as int].syntax.records@, shapes@[i as int].0@, shapes@[i as int].1@));
        }
        let ghost e0 = pairs_view(edges@);
        let mut p: usize = 0;
        while p < recs.len()
            invariant
                nf == files@.len(),
                i < nf,
                recs@ == files@[i as int].syntax.records@,
                shape_ok(recs@, kinds@, ends@),
                p <= recs@.len(),
                pairs_view(edges@) == e0 + edges_upto(recs@, p as int),
                texts(functions@).no_duplicates(),
                forall|x: Seq<char>| #[trigger] texts(functions@).contains(x) <==> declared_before(files@, i as int, p as int, x),
            decreases recs.len() - p,
        {
            let ghost before = pairs_view(edges@);
            let ghost fb = functions@;
            if kinds[p] == GdKind::FuncDecl {
                match ident_text(&recs[p].tokens) {
                    Some(nm) => {
                        let name = string_from(nm.as_slice());
                        let end = ends[p];
                        proof {
                            lemma_end_bounds(recs@, p as int, 0);
                        }
                        calls_in_exec(recs, kinds, &name, p, end, &mut edges);
                        let ix = intern(&mut functions, &name);
                        proof {
                            assert forall|x: Seq<char>| #[trigger] texts(functions@).contains(x) <==> declared_before(files@, i as int, p + 1, x) by {
                                lemma_intern_contains(fb, functions@, ix, nm@, x);
                                if declared_before(files@, i as int, p + 1, x) && !declared_before(files@, i as int, p as int, x) {
                                    let pp = choose|pp: int| 0 <= pp < p + 1 && #[trigger] func_name_at(files@[i as int].syntax.records@, pp) == Some(x);
                                    assert(pp == p);
                                }
                                if x == nm@ {
                                    assert(func_name_at(files@[i as int].syntax.records@, p as int) == Some(x));
                                }
                            }
                        }
                    },
                    None => {
                        proof {
                            assert forall|x: Seq<char>| #[trigger] texts(functions@).contains(x) <==> declared_before(files@, i as int, p + 1, x) by {
                                if declared_before(files@, i as int, p + 1, x) && !declared_before(files@, i as int, p as int, x) {
                                    let pp = choose|pp: int| 0 <= pp < p + 1 && #[trigger] func_name_at(files@[i as int].syntax.records@, pp) == Some(x);
                                    assert(pp == p);
                                }
                            }
                        }
                    },
                }
            } else {
                proof {
                    assert forall|x: Seq<char>| #[trigger] texts(functions@).contains(x) <==> declared_before(files@, i as int, p + 1, x) by {
                        if declared_before(files@, i as int, p + 1, x) && !declared_before(files@, i as int, p as int, x) {
                            let pp = choose|pp: int| 0 <= pp < p + 1 && #[trigger] func_name_at(files@[i as int].syntax.records@, pp) == Some(x);
                            assert(pp == p);
                        }
                    }
                }
            }
            proof {
                assert(edges_upto(recs@, p + 1) == edges_upto(recs@, p as int) + match func_name_at(recs@, p as int) {
                    Some(name) => calls_in(recs@, name, p as int, node_end(recs@, p as int)),
                    None => Seq::empty(),
                });
                assert(pairs_view(edges@) =~= e0 + edges_upto(recs@, p + 1));
            }
            p = p + 1;
        }
        proof {
            assert(edges_files(files@, i + 1) == edges_files(files@, i as int) + edges_upto(recs@, recs@.len() as int));
            assert forall|x: Seq<char>| #[trigger] texts(functions@).contains(x) <==> exists|j: int, pp: int|
                0 <= j < i + 1 && #[trigger] func_name_at(files@[j].syntax.records@, pp) == Some(x) by {
                if exists|j: int, pp: int| 0 <= j < i + 1 && #[trigger] func_name_at(files@[j].syntax.records@, pp) == Some(x) {
                    let (j, pp) = choose|j: int, pp: int| 0 <= j < i + 1 && #[trigger] func_name_at(files@[j].syntax.records@, pp) == Some(x);
                    if j == i {
                        assert(func_name_at(recs@, pp) == Some(x));
                        assert(0 <= pp < recs@.len());
                    }
                }
            }
        }
        i = i + 1;
    }
    let process = chars_to_string("_process");
    let physics = chars_to_string("_physics_process");
    let has_process = index_of(&functions, &process).is_some();
    let has_physics = index_of(&functions, &physics).is_some();
    proof {
        lemma_index_found(functions@, process@, has_process);
        lemma_index_found(functions@, physics@, has_physics);
        assert(defined(files@, "_process"@) == texts(functions@).contains("_process"@)) by {
            if texts(functions@).contains("_process"@) {
                let (j, pp) = choose|j: int, pp: int| 0 <= j < nf && #[trigger] func_name_at(files@[j].syntax.records@, pp) == Some("_process"@);
            }
        }
        assert(defined(files@, "_physics_process"@) == texts(functions@).contains("_physics_process"@)) by {
            if texts(functions@).contains("_physics_process"@) {
                let (j, pp) = choose|j: int, pp: int| 0 <= j < nf && #[trigger] func_name_at(files@[j].syntax.records@, pp) == Some("_physics_process"@);
            }
        }
    }
    let mut roots: Vec<String> = Vec::new();
    if has_process {
        roots.push(process);
    }
    let ghost r1 = texts(roots@);
    proof {
        assert(r1 =~= (if defined(files@, "_process"@) { seq!["_process"@] } else { Seq::<Seq<char>>::empty() }));
    }
    if has_physics {
        roots.push(physics);
    }
    proof {
        assert(texts(roots@) =~= r1 + (if defined(files@, "_physics_process"@) { seq!["_physics_process"@] } else { Seq::<Seq<char>>::empty() }));
        assert(texts(roots@) =~= gd_roots(files@));
    }
    let reachable = reachable_names(&edges, &roots);
    let ghost reach = gd_reachable(files@);
    proof {
        assert forall|x: Seq<char>| #[trigger] texts(reachable@).contains(x) <==> reach(x) by {
        }
    }
    i = 0;
    while i < nf
        invariant
            nf == files@.len(),
            i <= nf,
            shapes@.len() == nf,
            forall|j: int| 0 <= j < nf ==> #[trigger] shape_ok(files@[j].syntax.records@, shapes@[j].0@, shapes@[j].1@),
            forall|x: Seq<char>| #[trigger] texts(reachable@).contains(x) <==> reach(x),
            views(found@) == uncond_files(files@, nf as int) + float_files(files@, i as int, reach),
        decreases nf - i,
    {
        proof {
            assert(shape_ok(files@[i as int].syntax.records@, shapes@[i as int].0@, shapes@[i as int].1@));
        }
        let ghost before = views(found@);
        float_file(&files[i], &shapes[i].0, &shapes[i].1, &reachable, Ghost(reach), &mut found);
        proof {
            assert(float_files(files@, i + 1, reach) == float_files(files@, i as int, reach) + float_upto(files@[i as int], files@[i as int].syntax.records@.len() as int, reach));
            assert(views(found@) =~= uncond_files(files@, nf as int) + float_files(files@, i + 1, reach));
        }
        i = i + 1;
    }
    let findings = sort_dedup(&found);
    proof {
        assert forall|x: Seq<char>| #[trigger] texts(functions@).contains(x) <==> defined(files@, x) by {
        }
        assert forall|x: Seq<char>| #[trigger] texts(reachable@).contains(x) <==> is_reachable_in(files@, x) by {
        }
    }
    GdReport { findings, functions, reachable, parse_errors }
}


// ---- Laws ----------------------------------------------------------------------------

proof fn lemma_sites_inside_silent(recs: Seq<GdRecord>, names: Set<Seq<char>>, q: int)
    ensures
        chain_sites(recs, names, q, true) == Seq::<int>::empty(),
    decreases recs.len() - q, 1int,
{
    if 0 <= q < recs.len() {
        lemma_children_inside_silent(recs, names, q + 1, recs[q].child_count as int);
        assert(chain_sites(recs, names, q, true) =~= Seq::<int>::empty());
    }
}

proof fn lemma_children_inside_silent(recs: Seq<GdRecord>, names: Set<Seq<char>>, cur: int, k: int)
    ensures
        chain_children(recs, names, cur, k, true) == Seq::<int>::empty(),
    decreases recs.len() - cur + 1, 0int,
{
    if k > 0 && 0 <= cur < recs.len() {
        let e = node_end(recs, cur);
        let next = if e > cur && e <= recs.len() {
            e
        } else {
            cur + 1
        };
        lemma_sites_inside_silent(recs, names, cur);
        lemma_children_inside_silent(recs, names, next, k - 1);
        assert(chain_children(recs, names, cur, k, true) =~= Seq::<int>::empty());
    }
}

/// A chain of float arithmetic is reported once, at its outermost
/// qualifying node: nothing under qualifying arithmetic is reported again.
pub proof fn law_chain_reported_once(recs: Seq<GdRecord>, names: Set<Seq<char>>, q: int)
    requires
        0 <= q < recs.len(),
        qualifies(recs, names, q),
    ensures
        chain_sites(recs, names, q, false) == seq![q],
{
    lemma_children_inside_silent(recs, names, q + 1, recs[q].child_count as int);
    assert(chain_sites(recs, names, q, false) =~= seq![q]);
}

proof fn lemma_float_upto_silent(f: GdFile, m: int, reach: spec_fn(Seq<char>) -> bool)
    requires
        forall|x: Seq<char>| !#[trigger] reach(x),
    ensures
        float_upto(f, m, reach) == Seq::<FindingView>::empty(),
    decreases m,
{
    if m > 0 {
        lemma_float_upto_silent(f, m - 1, reach);
        assert(float_at(f, m - 1, reach) =~= Seq::<FindingView>::empty());
        assert(float_upto(f, m, reach) =~= Seq::<FindingView>::empty());
    }
}

proof fn lemma_float_files_silent(files: Seq<GdFile>, i: int, reach: spec_fn(Seq<char>) -> bool)
    requires
        forall|x: Seq<char>| !#[trigger] reach(x),
    ensures
        float_files(files, i, reach) == Seq::<FindingView>::empty(),
    decreases i,
{
    if 0 < i <= files.len() {
        lemma_float_files_silent(files, i - 1, reach);
        lemma_float_upto_silent(files[i - 1], files[i - 1].syntax.records@.len() as int, reach);
        assert(float_files(files, i, reach) =~= Seq::<FindingView>::empty());
    }
}

/// The float rule only reports inside functions reachable from `_process`
/// or `_physics_process`: a project that declares neither gets only the
/// unconditional findings.
pub proof fn law_float_needs_a_root(files: Seq<GdFile>)
    requires
        !defined(files, "_process"@),
        !defined(files, "_physics_process"@),
    ensures
        gd_collected(files) == uncond_files(files, files.len() as int),
{
    let reach = gd_reachable(files);
    assert(gd_roots(files) =~= Seq::<Seq<char>>::empty());
    assert forall|x: Seq<char>| !#[trigger] reach(x) by {
        law_no_roots_nothing_reachable(edges_files(files, files.len() as int), x);
    }
    lemma_float_files_silent(files, files.len() as int, reach);
    assert(gd_collected(files) =~= uncond_files(files, files.len() as int));
}

proof fn lemma_uncond_upto_holds(f: GdFile, m: int, p: int, x: FindingView)
    requires
        0 <= p < m,
        uncond_at(f, p).contains(x),
    ensures
        uncond_upto(f, m).contains(x),
    decreases m,
{
    if p < m - 1 {
        lemma_uncond_upto_holds(f, m - 1, p, x);
    }
    lemma_contains_concat(uncond_upto(f, m - 1), uncond_at(f, m - 1), x);
}

proof fn lemma_uncond_files_holds(files: Seq<GdFile>, n: int, i: int, x: FindingView)
    requires
        0 <= i < n <= files.len(),
        uncond_upto(files[i], files[i].syntax.records@.len() as int).contains(x),
    ensures
        uncond_files(files, n).contains(x),
    decreases n,
{
    if i < n - 1 {
        lemma_uncond_files_holds(files, n - 1, i, x);
    }
    lemma_contains_concat(
        uncond_files(files, n - 1),
        uncond_upto(files[n - 1], files[n - 1].syntax.records@.len() as int),
        x,
    );
}

/// A call of Godot's global RNG (`randi`, `randf`, `randi_range`,
/// `randf_range`, `randfn` or `randomize`, called by its bare name)
/// draws an `unseeded_rng` finding at the call, naming the function, and
/// the project's report holds a finding at that place for that rule.
pub proof fn law_godot_rng_call_reported(files: Seq<GdFile>, r: GdReport, i: int, p: int, c: Seq<char>)
    requires
        report_of(files, r),
        0 <= i < files.len(),
        0 <= p < files[i].syntax.records@.len(),
        gd_kind(files[i].syntax.records@[p].kind@) == GdKind::CallExpr,
        callee(files[i].syntax.records@, p) == Some(c),
        c == "randi"@ || c == "randf"@ || c == "randi_range"@ || c == "randf_range"@ || c == "randfn"@
            || c == "randomize"@,
    ensures
        ({
            let v = site_view(
                files[i].path@,
                files[i].bytes@,
                files[i].syntax.records@[p].start,
                "unseeded_rng"@,
                c + "() reads or reseeds Godot's global RNG, which is not deterministically tracked by default; differs per peer/run"@,
            );
            &&& gd_collected(files).contains(v)
            &&& key_in(views(r.findings@), view_key(v))
        }),
{
    let f = files[i];
    let recs = f.syntax.records@;
    assert(rng_funcs()[0] == "randi"@);
    assert(rng_funcs()[1] == "randf"@);
    assert(rng_funcs()[2] == "randi_range"@);
    assert(rng_funcs()[3] == "randf_range"@);
    assert(rng_funcs()[4] == "randfn"@);
    assert(rng_funcs()[5] == "randomize"@);
    assert(rng_funcs().contains(c));
    let v = site_view(
        f.path@,
        f.bytes@,
        recs[p].start,
        "unseeded_rng"@,
        c + "() reads or reseeds Godot's global RNG, which is not deterministically tracked by default; differs per peer/run"@,
    );
    assert(uncond_at(f, p) == seq![v]);
    assert(uncond_at(f, p)[0] == v);
    lemma_uncond_upto_holds(f, recs.len() as int, p, v);
    lemma_uncond_files_holds(files, files.len() as int, i, v);
    lemma_contains_concat(
        uncond_files(files, files.len() as int),
        float_files(files, files.len() as int, gd_reachable(files)),
        v,
    );
    law_collected_reported(gd_collected(files), views(r.findings@), v);
}

} // verus!
