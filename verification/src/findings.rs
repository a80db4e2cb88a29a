use vstd::prelude::*;
use crate::text::chars_of;
use crate::text::string_from;

verus! {

/// One reported rule violation.
pub struct Finding {
    pub file: String,
    pub line: u32,
    pub column: u32,
    pub rule: String,
    pub message: String,
}

/// The contents of a finding.
pub struct FindingView {
    pub file: Seq<char>,
    pub line: u32,
    pub column: u32,
    pub rule: Seq<char>,
    pub message: Seq<char>,
}

impl View for Finding {
    type V = FindingView;

    open spec fn view(&self) -> FindingView {
        FindingView {
            file: self.file@,
            line: self.line,
            column: self.column,
            rule: self.rule@,
            message: self.message@,
        }
    }
}

/// The contents of a list of findings.
pub open spec fn views(fs: Seq<Finding>) -> Seq<FindingView> {
    fs.map_values(|f: Finding| f@)
}

/// A field-by-field copy of a finding.
pub fn copy_finding(f: &Finding) -> (r: Finding)
    ensures
        r@ == f@,
{
    Finding {
        file: f.file.clone(),
        line: f.line,
        column: f.column,
        rule: f.rule.clone(),
        message: f.message.clone(),
    }
}

// ---- Ordering ----------------------------------------------------------------

/// Strict lexicographic order on integer sequences (a proper prefix comes
/// first).
pub open spec fn lex_lt(a: Seq<u64>, b: Seq<u64>) -> bool
    decreases a.len(),
{
    if a.len() == 0 {
        b.len() > 0
    } else if b.len() == 0 {
        false
    } else if a[0] < b[0] {
        true
    } else if a[0] > b[0] {
        false
    } else {
        lex_lt(a.drop_first(), b.drop_first())
    }
}

pub proof fn lemma_lex_irreflexive(a: Seq<u64>)
    ensures
        !lex_lt(a, a),
    decreases a.len(),
{
    if a.len() > 0 {
        lemma_lex_irreflexive(a.drop_first());
    }
}

pub proof fn lemma_lex_transitive(a: Seq<u64>, b: Seq<u64>, c: Seq<u64>)
    requires
        lex_lt(a, b),
        lex_lt(b, c),
    ensures
        lex_lt(a, c),
    decreases a.len(),
{
    if a.len() > 0 && b.len() > 0 && c.len() > 0 && a[0] == b[0] && b[0] == c[0] {
        lemma_lex_transitive(a.drop_first(), b.drop_first(), c.drop_first());
    }
}

pub proof fn lemma_lex_total(a: Seq<u64>, b: Seq<u64>)
    ensures
        a == b || lex_lt(a, b) || lex_lt(b, a),
    decreases a.len(),
{
    if a.len() > 0 && b.len() > 0 && a[0] == b[0] {
        lemma_lex_total(a.drop_first(), b.drop_first());
        if a.drop_first() == b.drop_first() {
            assert(a =~= seq![a[0]] + a.drop_first());
            assert(b =~= seq![b[0]] + b.drop_first());
        }
    } else if a.len() == 0 && b.len() == 0 {
        assert(a =~= b);
    }
}

/// Whether `a` comes strictly before `b`.
pub fn lex_less(a: &[u64], b: &[u64]) -> (r: bool)
    ensures
        r == lex_lt(a@, b@),
{
    let mut i: usize = 0;
    assert(a@.skip(0) =~= a@);
    assert(b@.skip(0) =~= b@);
    while i < a.len() && i < b.len()
        invariant
            i <= a@.len(),
            i <= b@.len(),
            lex_lt(a@, b@) == lex_lt(a@.skip(i as int), b@.skip(i as int)),
        decreases a.len() - i,
    {
        if a[i] < b[i] {
            return true;
        }
        if a[i] > b[i] {
            return false;
        }
        proof {
            assert(a@.skip(i as int).drop_first() =~= a@.skip(i + 1));
            assert(b@.skip(i as int).drop_first() =~= b@.skip(i + 1));
        }
        i = i + 1;
    }
    i == a.len() && i < b.len()
}

/// The code of a character in a key: one above its scalar value, so that
/// no character codes as the terminator 0.
pub open spec fn char_code(c: char) -> u64 {
    ((c as u32) as u64 + 1) as u64
}

/// The key of a path component: its kind (root, `.`, `..`, name) and, for
/// a name, its characters.
pub open spec fn component_code(part: Seq<char>, is_first: bool, rooted: bool) -> Seq<u64> {
    if part.len() == 0 {
        Seq::empty()
    } else if part == "."@ {
        if is_first && !rooted {
            seq![2u64, 0u64]
        } else {
            Seq::empty()
        }
    } else if part == ".."@ {
        seq![3u64, 0u64]
    } else {
        seq![4u64] + part.map_values(|c: char| char_code(c)) + seq![0u64]
    }
}

/// The position of the first `/` at or after `i`, or the length of `p`.
pub open spec fn next_slash(p: Seq<char>, i: int) -> int
    decreases p.len() - i,
{
    if i >= p.len() {
        p.len() as int
    } else if p[i] == '/' {
        i
    } else {
        next_slash(p, i + 1)
    }
}

/// The `/`-separated parts of `p` from position `from` on, coded component
/// by component; `first` marks the part that starts the path.
pub open spec fn components_code(p: Seq<char>, from: int, first: bool, rooted: bool) -> Seq<u64>
    decreases p.len() - from,
{
    if from < 0 || from > p.len() {
        Seq::empty()
    } else {
        let cut = next_slash(p, from);
        let code = component_code(p.subrange(from, cut), first, rooted);
        if from <= cut && cut < p.len() {
            code + components_code(p, cut + 1, false, rooted)
        } else {
            code
        }
    }
}

/// The ordering key of a path, component by component as `Path` orders
/// paths: repeated and trailing separators and interior `.` are ignored, a
/// root comes before `.`, `.` before `..`, and `..` before any name; names
/// compare character by character.
pub open spec fn path_code(p: Seq<char>) -> Seq<u64> {
    let rooted = p.len() > 0 && p[0] == '/';
    let head: Seq<u64> = if rooted {
        seq![1u64, 0u64]
    } else {
        Seq::empty()
    };
    head + components_code(p, 0, true, rooted) + seq![0u64]
}

/// The sort key of a finding: its file, line, column, then rule.
pub open spec fn view_key(f: FindingView) -> Seq<u64> {
    path_code(f.file) + seq![f.line as u64, f.column as u64] + f.rule.map_values(|c: char| char_code(c))
        + seq![0u64]
}

/// The sort key of a finding.
pub open spec fn finding_key(f: Finding) -> Seq<u64> {
    view_key(f@)
}

fn push_all(out: &mut Vec<u64>, s: &Vec<u64>)
    ensures
        final(out)@ == old(out)@ + s@,
{
    let mut i: usize = 0;
    while i < s.len()
        invariant
            i <= s@.len(),
            out@ == old(out)@ + s@.take(i as int),
        decreases s.len() - i,
    {
        out.push(s[i]);
        i = i + 1;
        assert(out@ =~= old(out)@ + s@.take(i as int));
    }
    assert(s@.take(s@.len() as int) =~= s@);
}

fn char_codes(s: &[char]) -> (r: Vec<u64>)
    ensures
        r@ == s@.map_values(|c: char| char_code(c)),
{
    let mut r: Vec<u64> = Vec::new();
    let mut i: usize = 0;
    while i < s.len()
        invariant
            i <= s@.len(),
            r@ == s@.take(i as int).map_values(|c: char| char_code(c)),
        decreases s.len() - i,
    {
        let c: u32 = s[i] as u32;
        r.push((c as u64) + 1);
        i = i + 1;
        assert(r@ =~= s@.take(i as int).map_values(|c: char| char_code(c)));
    }
    assert(s@.take(s@.len() as int) =~= s@);
    r
}

fn component_code_exec(part: &[char], is_first: bool, rooted: bool) -> (r: Vec<u64>)
    ensures
        r@ == component_code(part@, is_first, rooted),
{
    if part.len() == 0 {
        return Vec::new();
    }
    let dot = chars_of(".");
    let dotdot = chars_of("..");
    if crate::text::chars_eq(part, dot.as_slice()) {
        if is_first && !rooted {
            return vec![2u64, 0u64];
        } else {
            return Vec::new();
        }
    }
    if crate::text::chars_eq(part, dotdot.as_slice()) {
        return vec![3u64, 0u64];
    }
    let mut r: Vec<u64> = vec![4u64];
    let codes = char_codes(part);
    push_all(&mut r, &codes);
    r.push(0u64);
    r
}

/// The sort key of a path.
pub fn path_key(p: &[char]) -> (r: Vec<u64>)
    ensures
        r@ == path_code(p@),
{
    let rooted = p.len() > 0 && p[0] == '/';
    let mut r: Vec<u64> = if rooted {
        vec![1u64, 0u64]
    } else {
        Vec::new()
    };
    let ghost head = r@;
    let mut from: usize = 0;
    let mut first = true;
    loop
        invariant_except_break
            from <= p@.len(),
            rooted == (p@.len() > 0 && p@[0] == '/'),
            head + components_code(p@, 0, true, rooted) == r@ + components_code(p@, from as int, first, rooted),
        ensures
            r@ == head + components_code(p@, 0, true, rooted),
        decreases p@.len() - from,
    {
        let mut cut = from;
        while cut < p.len() && p[cut] != '/'
            invariant
                from <= cut <= p@.len(),
                next_slash(p@, from as int) == next_slash(p@, cut as int),
            decreases p.len() - cut,
        {
            cut = cut + 1;
        }
        proof {
            assert(next_slash(p@, cut as int) == cut as int);
        }
        let part = crate::text::slice_chars(p, from, cut);
        let code = component_code_exec(part.as_slice(), first, rooted);
        let ghost old_r = r@;
        push_all(&mut r, &code);
        if cut == p.len() {
            proof {
                assert(components_code(p@, from as int, first, rooted) == code@);
                assert(r@ == head + components_code(p@, 0, true, rooted));
            }
            break;
        }
        proof {
            assert(components_code(p@, from as int, first, rooted) == code@ + components_code(p@, cut + 1, false, rooted));
            assert(old_r + (code@ + components_code(p@, cut + 1, false, rooted)) == (old_r + code@) + components_code(p@, cut + 1, false, rooted));
        }
        from = cut + 1;
        first = false;
    }
    r.push(0u64);
    r
}

/// The sort key of a finding.
pub fn finding_key_exec(f: &Finding) -> (r: Vec<u64>)
    ensures
        r@ == finding_key(*f),
{
    let file = chars_of(f.file.as_str());
    let mut r = path_key(file.as_slice());
    r.push(f.line as u64);
    r.push(f.column as u64);
    let rule = chars_of(f.rule.as_str());
    let codes = char_codes(rule.as_slice());
    push_all(&mut r, &codes);
    r.push(0u64);
    r
}

// ---- Sorting and de-duplication ----------------------------------------------

/// The number of keys strictly above `last`.
pub open spec fn count_above(keys: Seq<Seq<u64>>, last: Seq<u64>) -> nat
    decreases keys.len(),
{
    if keys.len() == 0 {
        0
    } else {
        count_above(keys.drop_last(), last) + if lex_lt(last, keys.last()) {
            1nat
        } else {
            0nat
        }
    }
}

proof fn lemma_count_above_drops(keys: Seq<Seq<u64>>, last: Seq<u64>, next: Seq<u64>, j: int)
    requires
        lex_lt(last, next),
        0 <= j < keys.len(),
        keys[j] == next,
    ensures
        count_above(keys, next) < count_above(keys, last),
    decreases keys.len(),
{
    lemma_count_above_mono(keys.drop_last(), last, next);
    if j < keys.len() - 1 {
        lemma_count_above_drops(keys.drop_last(), last, next, j);
        if lex_lt(next, keys.last()) {
            lemma_lex_transitive(last, next, keys.last());
        }
    } else {
        lemma_lex_irreflexive(next);
    }
}

proof fn lemma_count_above_mono(keys: Seq<Seq<u64>>, last: Seq<u64>, next: Seq<u64>)
    requires
        lex_lt(last, next),
    ensures
        count_above(keys, next) <= count_above(keys, last),
    decreases keys.len(),
{
    if keys.len() > 0 {
        lemma_count_above_mono(keys.drop_last(), last, next);
        if lex_lt(next, keys.last()) {
            lemma_lex_transitive(last, next, keys.last());
        }
    }
}

/// The keys of a list of findings.
pub open spec fn keys_of(fs: Seq<Finding>) -> Seq<Seq<u64>> {
    fs.map_values(|f: Finding| finding_key(f))
}

spec fn first_with_key(fs: Seq<Finding>, j: int) -> bool {
    &&& 0 <= j < fs.len()
    &&& forall|i: int| 0 <= i < j ==> finding_key(#[trigger] fs[i]) != finding_key(fs[j])
}

spec fn is_first_of(fs: Seq<Finding>, f: Finding) -> bool {
    exists|j: int| first_with_key(fs, j) && fs[j]@ == f@
}

spec fn key_listed(out: Seq<Finding>, k: Seq<u64>) -> bool {
    exists|a: int| 0 <= a < out.len() && finding_key(out[a]) == k
}

spec fn sorted_dedup_of(fs: Seq<Finding>, out: Seq<Finding>) -> bool {
    &&& forall|a: int, b: int|
        0 <= a < b < out.len() ==> lex_lt(finding_key(#[trigger] out[a]), finding_key(#[trigger] out[b]))
    &&& forall|a: int| 0 <= a < out.len() ==> is_first_of(fs, #[trigger] out[a])
    &&& forall|j: int| 0 <= j < fs.len() ==> key_listed(out, finding_key(#[trigger] fs[j]))
}

/// `vs[j]` is the first entry of `vs` with its key.
pub open spec fn first_view_with_key(vs: Seq<FindingView>, j: int) -> bool {
    &&& 0 <= j < vs.len()
    &&& forall|i: int| 0 <= i < j ==> view_key(#[trigger] vs[i]) != view_key(vs[j])
}

/// `v` is the first entry of `vs` with its key.
pub open spec fn is_first_view(vs: Seq<FindingView>, v: FindingView) -> bool {
    exists|j: int| first_view_with_key(vs, j) && vs[j] == v
}

/// Some entry of `out` has the key `k`.
pub open spec fn key_in(out: Seq<FindingView>, k: Seq<u64>) -> bool {
    exists|a: int| 0 <= a < out.len() && view_key(out[a]) == k
}

/// `out` lists, in strictly increasing key order, the first entry of `vs`
/// for each key that occurs in `vs`.
pub open spec fn sorted_dedup_views(vs: Seq<FindingView>, out: Seq<FindingView>) -> bool {
    &&& forall|a: int, b: int|
        0 <= a < b < out.len() ==> lex_lt(view_key(#[trigger] out[a]), view_key(#[trigger] out[b]))
    &&& forall|a: int| 0 <= a < out.len() ==> is_first_view(vs, #[trigger] out[a])
    &&& forall|j: int| 0 <= j < vs.len() ==> key_in(out, view_key(#[trigger] vs[j]))
}

proof fn lemma_sorted_dedup_views(fs: Seq<Finding>, out: Seq<Finding>)
    requires
        sorted_dedup_of(fs, out),
    ensures
        sorted_dedup_views(views(fs), views(out)),
{
    let vs = views(fs);
    let vo = views(out);
    assert forall|a: int, b: int| 0 <= a < b < vo.len() implies lex_lt(view_key(#[trigger] vo[a]), view_key(#[trigger] vo[b])) by {
        assert(lex_lt(finding_key(out[a]), finding_key(out[b])));
    }
    assert forall|a: int| 0 <= a < vo.len() implies is_first_view(vs, #[trigger] vo[a]) by {
        assert(is_first_of(fs, out[a]));
        let j = choose|j: int| first_with_key(fs, j) && fs[j]@ == out[a]@;
        assert forall|i: int| 0 <= i < j implies view_key(#[trigger] vs[i]) != view_key(vs[j]) by {
            assert(finding_key(fs[i]) != finding_key(fs[j]));
        }
        assert(first_view_with_key(vs, j));
        assert(vs[j] == vo[a]);
    }
    assert forall|j: int| 0 <= j < vs.len() implies key_in(vo, view_key(#[trigger] vs[j])) by {
        assert(key_listed(out, finding_key(fs[j])));
        let a = choose|a: int| 0 <= a < out.len() && finding_key(out[a]) == finding_key(fs[j]);
        assert(view_key(vo[a]) == view_key(vs[j]));
    }
}

/// Index `j` is a candidate for the next output: nothing is output yet, or
/// its key lies above the last key output.
spec fn above(started: bool, last: Seq<u64>, k: Seq<u64>) -> bool {
    !started || lex_lt(last, k)
}

/// The findings sorted by file, line, column and rule, keeping only the first
/// of those that share all four.
pub fn sort_dedup(fs: &Vec<Finding>) -> (out: Vec<Finding>)
    ensures
        sorted_dedup_views(views(fs@), views(out@)),
{
    let n = fs.len();
    let mut keys: Vec<Vec<u64>> = Vec::new();
    let mut i: usize = 0;
    while i < n
        invariant
            n == fs@.len(),
            i <= n,
            keys@.len() == i,
            forall|j: int| 0 <= j < i ==> (#[trigger] keys@[j])@ == finding_key(fs@[j]),
        decreases n - i,
    {
        keys.push(finding_key_exec(&fs[i]));
        i = i + 1;
    }
    let ghost kv = keys_of(fs@);
    assert(forall|j: int| 0 <= j < n ==> kv[j] == (#[trigger] keys@[j])@);
    let mut out: Vec<Finding> = Vec::new();
    let mut last: Vec<u64> = Vec::new();
    let mut started = false;
    loop
        invariant
            n == fs@.len(),
            keys@.len() == n,
            kv == keys_of(fs@),
            kv.len() == n,
            forall|j: int| 0 <= j < n ==> kv[j] == (#[trigger] keys@[j])@,
            started == (out@.len() > 0),
            started ==> last@ == finding_key(out@[out@.len() - 1]),
            forall|a: int, b: int|
                0 <= a < b < out@.len() ==> lex_lt(finding_key(#[trigger] out@[a]), finding_key(#[trigger] out@[b])),
            forall|a: int| 0 <= a < out@.len() ==> is_first_of(fs@, #[trigger] out@[a]),
            forall|j: int|
                #![trigger kv[j]]
                0 <= j < n && !above(started, last@, kv[j]) ==> key_listed(out@, kv[j]),
        ensures
            forall|j: int| 0 <= j < n ==> !above(started, last@, #[trigger] kv[j]),
            forall|a: int, b: int|
                0 <= a < b < out@.len() ==> lex_lt(finding_key(#[trigger] out@[a]), finding_key(#[trigger] out@[b])),
            forall|a: int| 0 <= a < out@.len() ==> is_first_of(fs@, #[trigger] out@[a]),
            forall|j: int|
                #![trigger kv[j]]
                0 <= j < n && !above(started, last@, kv[j]) ==> key_listed(out@, kv[j]),
        decreases (if started { count_above(kv, last@) } else { kv.len() + 1 }),
    {
        let mut best: usize = n;
        let mut j: usize = 0;
        while j < n
            invariant
                n == fs@.len(),
                keys@.len() == n,
                kv.len() == n,
                forall|jj: int| 0 <= jj < n ==> kv[jj] == (#[trigger] keys@[jj])@,
                j <= n,
                best <= n,
                best == n ==> forall|jj: int| 0 <= jj < j ==> !above(started, last@, #[trigger] kv[jj]),
                best < n ==> best < j && above(started, last@, kv[best as int]),
                best < n ==> forall|jj: int|
                    0 <= jj < j && above(started, last@, #[trigger] kv[jj]) ==> !lex_lt(kv[jj], kv[best as int]) && (jj
                        < best ==> kv[jj] != kv[best as int]),
            decreases n - j,
        {
            let is_above = !started || lex_less(last.as_slice(), keys[j].as_slice());
            if is_above {
                if best == n {
                    proof {
                        lemma_lex_irreflexive(kv[j as int]);
                    }
                    best = j;
                } else if lex_less(keys[j].as_slice(), keys[best].as_slice()) {
                    proof {
                        lemma_lex_irreflexive(kv[j as int]);
                        assert forall|jj: int|
                            0 <= jj < j + 1 && above(started, last@, #[trigger] kv[jj]) implies !lex_lt(kv[jj], kv[j as int]) && (jj
                                < j ==> kv[jj] != kv[j as int]) by {
                            if jj < j {
                                if lex_lt(kv[jj], kv[j as int]) {
                                    lemma_lex_transitive(kv[jj], kv[j as int], kv[best as int]);
                                }
                            }
                        }
                    }
                    best = j;
                }
            }
            j = j + 1;
        }
        if best == n {
            break;
        }
        let ghost old_last = last@;
        let ghost old_out = out@;
        let ghost old_started = started;
        let ghost bk = kv[best as int];
        proof {
            assert(bk == finding_key(fs@[best as int]));
            assert(first_with_key(fs@, best as int)) by {
                assert forall|i2: int| 0 <= i2 < best implies finding_key(#[trigger] fs@[i2]) != finding_key(fs@[best as int]) by {
                    assert(kv[i2] == finding_key(fs@[i2]));
                    if kv[i2] == bk {
                        assert(above(started, last@, kv[i2]));
                    }
                }
            }
        }
        let f = copy_finding(&fs[best]);
        out.push(f);
        last = finding_key_exec(&fs[best]);
        started = true;
        proof {
            assert(out@[out@.len() - 1]@ == fs@[best as int]@);
            assert forall|a: int, b: int|
                0 <= a < b < out@.len() implies lex_lt(finding_key(#[trigger] out@[a]), finding_key(#[trigger] out@[b])) by {
                assert(out@[a] == old_out[a]);
                if b == out@.len() - 1 {
                    if a < old_out.len() - 1 {
                        assert(lex_lt(finding_key(old_out[a]), finding_key(old_out[old_out.len() - 1])));
                        lemma_lex_transitive(finding_key(old_out[a]), old_last, bk);
                    }
                } else {
                    assert(out@[b] == old_out[b]);
                }
            }
            assert forall|a: int| 0 <= a < out@.len() implies is_first_of(fs@, #[trigger] out@[a]) by {
                if a < old_out.len() {
                    assert(out@[a] == old_out[a]);
                    assert(is_first_of(fs@, old_out[a]));
                } else {
                    assert(first_with_key(fs@, best as int) && fs@[best as int]@ == out@[a]@);
                }
            }
            assert forall|jj: int|
                #![trigger kv[jj]]
                0 <= jj < n && !above(started, last@, kv[jj]) implies key_listed(out@, kv[jj]) by {
                lemma_lex_total(bk, kv[jj]);
                if kv[jj] == bk {
                    assert(finding_key(out@[out@.len() - 1]) == kv[jj]);
                } else {
                    assert(lex_lt(kv[jj], bk));
                    if above(old_started, old_last, kv[jj]) {
                        assert(!lex_lt(kv[jj], bk));
                    }
                    assert(key_listed(old_out, kv[jj]));
                    let a = choose|a: int| 0 <= a < old_out.len() && finding_key(old_out[a]) == kv[jj];
                    assert(out@[a] == old_out[a]);
                }
            }
            if old_started {
                lemma_count_above_drops(kv, old_last, bk, best as int);
            } else {
                lemma_count_above_le(kv, bk);
            }
        }
    }
    proof {
        assert forall|jj: int| 0 <= jj < n implies key_listed(out@, finding_key(#[trigger] fs@[jj])) by {
            assert(kv[jj] == finding_key(fs@[jj]));
            assert(!above(started, last@, kv[jj]));
        }
        lemma_sorted_dedup_views(fs@, out@);
    }
    out
}

proof fn lemma_count_above_le(keys: Seq<Seq<u64>>, last: Seq<u64>)
    ensures
        count_above(keys, last) <= keys.len(),
    decreases keys.len(),
{
    if keys.len() > 0 {
        lemma_count_above_le(keys.drop_last(), last);
    }
}

// ---- Output ------------------------------------------------------------------

/// The decimal digits of `n`.
pub open spec fn decimal(n: nat) -> Seq<char>
    decreases n,
{
    if n < 10 {
        seq![digit(n)]
    } else {
        decimal(n / 10).push(digit(n % 10))
    }
}

/// The character of a decimal digit.
pub open spec fn digit(d: nat) -> char {
    if d == 0 {
        '0'
    } else if d == 1 {
        '1'
    } else if d == 2 {
        '2'
    } else if d == 3 {
        '3'
    } else if d == 4 {
        '4'
    } else if d == 5 {
        '5'
    } else if d == 6 {
        '6'
    } else if d == 7 {
        '7'
    } else if d == 8 {
        '8'
    } else {
        '9'
    }
}

fn digit_char(d: u32) -> (c: char)
    requires
        d < 10,
    ensures
        c == digit(d as nat),
{
    if d == 0 {
        '0'
    } else if d == 1 {
        '1'
    } else if d == 2 {
        '2'
    } else if d == 3 {
        '3'
    } else if d == 4 {
        '4'
    } else if d == 5 {
        '5'
    } else if d == 6 {
        '6'
    } else if d == 7 {
        '7'
    } else if d == 8 {
        '8'
    } else {
        '9'
    }
}

fn push_decimal(out: &mut Vec<char>, n: u32)
    ensures
        final(out)@ == old(out)@ + decimal(n as nat),
    decreases n,
{
    if n < 10 {
        out.push(digit_char(n));
    } else {
        push_decimal(out, n / 10);
        out.push(digit_char(n % 10));
    }
}

fn push_chars(out: &mut Vec<char>, s: &[char])
    ensures
        final(out)@ == old(out)@ + s@,
{
    let mut i: usize = 0;
    while i < s.len()
        invariant
            i <= s@.len(),
            out@ == old(out)@ + s@.take(i as int),
        decreases s.len() - i,
    {
        out.push(s[i]);
        i = i + 1;
        assert(out@ =~= old(out)@ + s@.take(i as int));
    }
    assert(s@.take(s@.len() as int) =~= s@);
}

/// The report line of a finding: `file:line:column: warning: message [tool::rule]`.
pub open spec fn report_line(f: FindingView, tool: Seq<char>) -> Seq<char> {
    f.file + ":"@ + decimal(f.line as nat) + ":"@ + decimal(f.column as nat) + ": warning: "@
        + f.message + " ["@ + tool + "::"@ + f.rule + "]"@
}

/// Formats a finding as a report line for the front end named `tool`.
pub fn format_finding(f: &Finding, tool: &str) -> (s: String)
    ensures
        s@ == report_line(f@, tool@),
{
    let mut v: Vec<char> = Vec::new();
    push_chars(&mut v, chars_of(f.file.as_str()).as_slice());
    push_chars(&mut v, chars_of(":").as_slice());
    push_decimal(&mut v, f.line);
    push_chars(&mut v, chars_of(":").as_slice());
    push_decimal(&mut v, f.column);
    push_chars(&mut v, chars_of(": warning: ").as_slice());
    push_chars(&mut v, chars_of(f.message.as_str()).as_slice());
    push_chars(&mut v, chars_of(" [").as_slice());
    push_chars(&mut v, chars_of(tool).as_slice());
    push_chars(&mut v, chars_of("::").as_slice());
    push_chars(&mut v, chars_of(f.rule.as_str()).as_slice());
    push_chars(&mut v, chars_of("]").as_slice());
    string_from(v.as_slice())
}

/// The process exit status for a run: 1 when anything was found, else 0.
pub fn exit_code(findings: &Vec<Finding>) -> (code: i32)
    ensures
        code == (if findings@.len() == 0 { 0i32 } else { 1i32 }),
{
    if findings.len() == 0 {
        0
    } else {
        1
    }
}


/// The keys of `out` strictly increase.
pub open spec fn strictly_sorted(out: Seq<FindingView>) -> bool {
    forall|a: int, b: int| 0 <= a < b < out.len() ==> lex_lt(view_key(#[trigger] out[a]), view_key(#[trigger] out[b]))
}

proof fn lemma_sorted_same_contents(o1: Seq<FindingView>, o2: Seq<FindingView>)
    requires
        strictly_sorted(o1),
        strictly_sorted(o2),
        forall|x: FindingView| o1.contains(x) <==> o2.contains(x),
    ensures
        o1 == o2,
    decreases o1.len(),
{
    if o1.len() == 0 {
        if o2.len() > 0 {
            assert(o2.contains(o2[0]));
        }
        assert(o1 =~= o2);
    } else {
        assert(o1.contains(o1[0]));
        let j = choose|j: int| 0 <= j < o2.len() && o2[j] == o1[0];
        assert(o2.contains(o2[0]));
        let i = choose|i: int| 0 <= i < o1.len() && o1[i] == o2[0];
        if j > 0 {
            if i == 0 {
                assert(lex_lt(view_key(o2[0]), view_key(o2[j])));
                lemma_lex_irreflexive(view_key(o2[0]));
            } else {
                assert(lex_lt(view_key(o1[0]), view_key(o1[i])));
                assert(lex_lt(view_key(o2[0]), view_key(o2[j])));
                lemma_lex_transitive(view_key(o1[0]), view_key(o1[i]), view_key(o2[j]));
                lemma_lex_irreflexive(view_key(o1[0]));
            }
        }
        assert(o1[0] == o2[0]);
        let t1 = o1.drop_first();
        let t2 = o2.drop_first();
        assert forall|x: FindingView| t1.contains(x) <==> t2.contains(x) by {
            if t1.contains(x) {
                let a = choose|a: int| 0 <= a < t1.len() && t1[a] == x;
                assert(o1[a + 1] == x);
                assert(lex_lt(view_key(o1[0]), view_key(o1[a + 1])));
                assert(o2.contains(x));
                let b = choose|b: int| 0 <= b < o2.len() && o2[b] == x;
                if b == 0 {
                    lemma_lex_irreflexive(view_key(o1[0]));
                }
                assert(t2[b - 1] == x);
            }
            if t2.contains(x) {
                let b = choose|b: int| 0 <= b < t2.len() && t2[b] == x;
                assert(o2[b + 1] == x);
                assert(lex_lt(view_key(o2[0]), view_key(o2[b + 1])));
                assert(o1.contains(x));
                let a = choose|a: int| 0 <= a < o1.len() && o1[a] == x;
                if a == 0 {
                    lemma_lex_irreflexive(view_key(o2[0]));
                }
                assert(t1[a - 1] == x);
            }
        }
        lemma_sorted_same_contents(t1, t2);
        assert(o1 =~= seq![o1[0]] + t1);
        assert(o2 =~= seq![o2[0]] + t2);
    }
}

proof fn lemma_report_within(vs1: Seq<FindingView>, vs2: Seq<FindingView>, o1: Seq<FindingView>, o2: Seq<FindingView>)
    requires
        sorted_dedup_views(vs1, o1),
        sorted_dedup_views(vs2, o2),
        forall|v: FindingView| vs1.contains(v) <==> vs2.contains(v),
        forall|i: int, j: int|
            0 <= i < vs1.len() && 0 <= j < vs1.len() && view_key(#[trigger] vs1[i]) == view_key(#[trigger] vs1[j])
                ==> vs1[i] == vs1[j],
    ensures
        forall|x: FindingView| o1.contains(x) ==> o2.contains(x),
{
    assert forall|x: FindingView| o1.contains(x) implies o2.contains(x) by {
        let a = choose|a: int| 0 <= a < o1.len() && o1[a] == x;
        assert(is_first_view(vs1, o1[a]));
        let j = choose|j: int| first_view_with_key(vs1, j) && vs1[j] == o1[a];
        assert(vs1.contains(x));
        assert(vs2.contains(x));
        let m = choose|m: int| 0 <= m < vs2.len() && vs2[m] == x;
        assert(key_in(o2, view_key(vs2[m])));
        let b = choose|b: int| 0 <= b < o2.len() && view_key(o2[b]) == view_key(vs2[m]);
        assert(is_first_view(vs2, o2[b]));
        let jj = choose|jj: int| first_view_with_key(vs2, jj) && vs2[jj] == o2[b];
        assert(vs2.contains(o2[b]));
        assert(vs1.contains(o2[b]));
        let ii = choose|ii: int| 0 <= ii < vs1.len() && vs1[ii] == o2[b];
        assert(vs1[ii] == vs1[j]);
        assert(o2[b] == x);
    }
}

/// The report does not depend on the order findings were collected in: two
/// collections with the same findings, where findings that share a place
/// and rule are identical, give the same sorted, deduplicated report.
pub proof fn law_report_order_independent(vs1: Seq<FindingView>, vs2: Seq<FindingView>, o1: Seq<FindingView>, o2: Seq<FindingView>)
    requires
        sorted_dedup_views(vs1, o1),
        sorted_dedup_views(vs2, o2),
        forall|v: FindingView| vs1.contains(v) <==> vs2.contains(v),
        forall|i: int, j: int|
            0 <= i < vs1.len() && 0 <= j < vs1.len() && view_key(#[trigger] vs1[i]) == view_key(#[trigger] vs1[j])
                ==> vs1[i] == vs1[j],
    ensures
        o1 == o2,
{
    assert forall|i: int, j: int|
        0 <= i < vs2.len() && 0 <= j < vs2.len() && view_key(#[trigger] vs2[i]) == view_key(#[trigger] vs2[j]) implies vs2[i]
        == vs2[j] by {
        assert(vs2.contains(vs2[i]));
        assert(vs2.contains(vs2[j]));
        assert(vs1.contains(vs2[i]));
        assert(vs1.contains(vs2[j]));
        let a = choose|a: int| 0 <= a < vs1.len() && vs1[a] == vs2[i];
        let b = choose|b: int| 0 <= b < vs1.len() && vs1[b] == vs2[j];
        assert(vs1[a] == vs1[b]);
    }
    lemma_report_within(vs1, vs2, o1, o2);
    lemma_report_within(vs2, vs1, o2, o1);
    lemma_sorted_same_contents(o1, o2);
}

/// No two reported findings share a file, line, column and rule, and every
/// reported finding is one that was collected.
pub proof fn law_report_unique_and_collected(vs: Seq<FindingView>, out: Seq<FindingView>)
    requires
        sorted_dedup_views(vs, out),
    ensures
        forall|a: int, b: int| 0 <= a < b < out.len() ==> view_key(#[trigger] out[a]) != view_key(#[trigger] out[b]),
        forall|a: int| 0 <= a < out.len() ==> vs.contains(#[trigger] out[a]),
{
    assert forall|a: int, b: int| 0 <= a < b < out.len() implies view_key(#[trigger] out[a]) != view_key(#[trigger] out[b]) by {
        lemma_lex_irreflexive(view_key(out[a]));
    }
    assert forall|a: int| 0 <= a < out.len() implies vs.contains(#[trigger] out[a]) by {
        assert(is_first_view(vs, out[a]));
        let j = choose|j: int| first_view_with_key(vs, j) && vs[j] == out[a];
        assert(vs[j] == out[a]);
    }
}


/// Every collected finding's file, line, column and rule appear in the
/// report.
pub proof fn law_collected_reported(vs: Seq<FindingView>, out: Seq<FindingView>, v: FindingView)
    requires
        sorted_dedup_views(vs, out),
        vs.contains(v),
    ensures
        key_in(out, view_key(v)),
{
    let j = choose|j: int| 0 <= j < vs.len() && vs[j] == v;
    assert(key_in(out, view_key(vs[j])));
}

/// A member of either part is a member of a concatenation.
pub proof fn lemma_contains_concat<A>(a: Seq<A>, b: Seq<A>, x: A)
    ensures
        a.contains(x) ==> (a + b).contains(x),
        b.contains(x) ==> (a + b).contains(x),
{
    if a.contains(x) {
        let j = choose|j: int| 0 <= j < a.len() && a[j] == x;
        assert((a + b)[j] == x);
    }
    if b.contains(x) {
        let j = choose|j: int| 0 <= j < b.len() && b[j] == x;
        assert((a + b)[a.len() + j] == x);
    }
}

/// Sorting and deduplicating is a function of what was collected: two
/// reports of the same findings are the same.
pub proof fn law_sorted_dedup_unique(vs: Seq<FindingView>, o1: Seq<FindingView>, o2: Seq<FindingView>)
    requires
        sorted_dedup_views(vs, o1),
        sorted_dedup_views(vs, o2),
    ensures
        o1 == o2,
{
    lemma_first_views_within(vs, o1, o2);
    lemma_first_views_within(vs, o2, o1);
    lemma_sorted_same_contents(o1, o2);
}

proof fn lemma_first_views_within(vs: Seq<FindingView>, o1: Seq<FindingView>, o2: Seq<FindingView>)
    requires
        sorted_dedup_views(vs, o1),
        sorted_dedup_views(vs, o2),
    ensures
        forall|x: FindingView| o1.contains(x) ==> o2.contains(x),
{
    assert forall|x: FindingView| o1.contains(x) implies o2.contains(x) by {
        let a = choose|a: int| 0 <= a < o1.len() && o1[a] == x;
        assert(is_first_view(vs, o1[a]));
        let j = choose|j: int| first_view_with_key(vs, j) && vs[j] == o1[a];
        assert(key_in(o2, view_key(vs[j])));
        let b = choose|b: int| 0 <= b < o2.len() && view_key(o2[b]) == view_key(vs[j]);
        assert(is_first_view(vs, o2[b]));
        let jj = choose|jj: int| first_view_with_key(vs, jj) && vs[jj] == o2[b];
        if jj < j {
            assert(view_key(vs[jj]) != view_key(vs[j]));
        } else if j < jj {
            assert(view_key(vs[j]) != view_key(vs[jj]));
        }
        assert(o2[b] == x);
    }
}

} // verus!
