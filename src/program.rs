//! The rule program: an ordered table of `pattern -> replacement` rules,
//! evaluated greedily from the left, first matching rule wins.
use vstd::prelude::*;
use vstd::string::*;
use crate::text::{is_bit, has_bit, chars_of, char_is_bit, contains_bit};

verus! {

/// A rule as the contracts see it: pattern and replacement.
pub type RuleSeq = (Seq<char>, Seq<char>);

/// Which way a program rewrites, and so how its table is ordered.
#[derive(Clone, Copy, Debug, PartialEq, Eq, Structural)]
pub enum Mode {
    Compress,
    Decompress,
}

/// Why evaluating, normalizing or building a code failed.
#[derive(Clone, Copy, Debug, PartialEq, Eq, Structural)]
pub enum ProgramError {
    /// No rule's pattern is a prefix of what is left of the input.
    NoMatchingRule,
    /// Resolving nested codewords went deeper than the table allows.
    UnresolvedRecursiveReplacement,
    /// A prefix code was asked for an empty weight table.
    EmptyWeightTable,
    /// An artifact lacks the blank line or the bit line, or holds a rule
    /// line without `=`.
    MalformedArtifact,
}

/// The table as sequences of characters.
pub open spec fn table_of(v: Seq<(String, String)>) -> Seq<RuleSeq> {
    v.map_values(|r: (String, String)| (r.0@, r.1@))
}

/// A rule applies when its pattern is a non-empty prefix of the input.
pub open spec fn applies(pat: Seq<char>, input: Seq<char>) -> bool {
    0 < pat.len() <= input.len() && input.take(pat.len() as int) == pat
}

/// `k` is the first rule of `t` that applies to `input`.
pub open spec fn first_match(t: Seq<RuleSeq>, input: Seq<char>, k: int) -> bool {
    &&& 0 <= k < t.len()
    &&& applies(t[k].0, input)
    &&& forall|j: int| 0 <= j < k ==> !applies(#[trigger] t[j].0, input)
}

/// Greedy evaluation: consume the first applying rule's pattern, emit its
/// replacement, go on with the rest; `None` when no rule applies.
pub open spec fn eval_spec(t: Seq<RuleSeq>, input: Seq<char>) -> Option<Seq<char>>
    decreases input.len(),
{
    if input.len() == 0 {
        Some(Seq::empty())
    } else if exists|k: int| first_match(t, input, k) {
        let k = choose|k: int| first_match(t, input, k);
        match eval_spec(t, input.skip(t[k].0.len() as int)) {
            Some(r) => Some(t[k].1 + r),
            None => None,
        }
    } else {
        None
    }
}

/// `p` in front of the result, if there is one.
pub open spec fn prepend(p: Seq<char>, o: Option<Seq<char>>) -> Option<Seq<char>> {
    match o {
        Some(r) => Some(p + r),
        None => None,
    }
}

/// Lexicographic order on characters, strict.
pub open spec fn lex_less(a: Seq<char>, b: Seq<char>) -> bool
    decreases a.len(),
{
    if b.len() == 0 {
        false
    } else if a.len() == 0 {
        true
    } else if a[0] != b[0] {
        (a[0] as u32) < (b[0] as u32)
    } else {
        lex_less(a.drop_first(), b.drop_first())
    }
}

/// `a` goes strictly before `b` in a table of the given mode: by ascending
/// replacement length when compressing, by descending pattern length when
/// decompressing; equal lengths are ordered by the same string, ascending
/// when compressing and descending when decompressing.
pub open spec fn goes_before(mode: Mode, a: RuleSeq, b: RuleSeq) -> bool {
    match mode {
        Mode::Compress => a.1.len() < b.1.len() || (a.1.len() == b.1.len() && lex_less(a.1, b.1)),
        Mode::Decompress => a.0.len() > b.0.len() || (a.0.len() == b.0.len() && lex_less(b.0, a.0)),
    }
}

/// `x` placed into `t` before the first rule that it goes before.
pub open spec fn insert_sorted(mode: Mode, t: Seq<RuleSeq>, x: RuleSeq) -> Seq<RuleSeq>
    decreases t.len(),
{
    if t.len() == 0 {
        seq![x]
    } else if goes_before(mode, x, t[0]) {
        seq![x] + t
    } else {
        seq![t[0]] + insert_sorted(mode, t.drop_first(), x)
    }
}

/// Insertion sort of `t`, stable.
pub open spec fn sort_spec(mode: Mode, t: Seq<RuleSeq>) -> Seq<RuleSeq>
    decreases t.len(),
{
    if t.len() == 0 {
        t
    } else {
        insert_sorted(mode, sort_spec(mode, t.drop_last()), t.last())
    }
}

proof fn lemma_first_match_unique(t: Seq<RuleSeq>, input: Seq<char>, k: int, j: int)
    requires
        first_match(t, input, k),
        first_match(t, input, j),
    ensures
        k == j,
{
    if k < j {
        assert(!applies(t[k].0, input));
    } else if j < k {
        assert(!applies(t[j].0, input));
    }
}

/// One step of evaluation, when rule `k` is the first that applies.
proof fn lemma_eval_step(t: Seq<RuleSeq>, input: Seq<char>, k: int)
    requires
        first_match(t, input, k),
    ensures
        eval_spec(t, input) == prepend(t[k].1, eval_spec(t, input.skip(t[k].0.len() as int))),
{
    let c = choose|c: int| first_match(t, input, c);
    lemma_first_match_unique(t, input, k, c);
}

/// Whether `pat` applies at position `pos` of `chars`.
fn applies_at(pat: &String, chars: &Vec<char>, pos: usize) -> (r: bool)
    requires
        pos <= chars@.len(),
    ensures
        r == applies(pat@, chars@.skip(pos as int)),
{
    let n = pat.as_str().unicode_len();
    if n == 0 || n > chars.len() - pos {
        return false;
    }
    let ghost rest = chars@.skip(pos as int);
    let mut i: usize = 0;
    while i < n
        invariant
            n == pat@.len(),
            0 < n,
            pos + n <= chars.len(),
            pos <= chars@.len(),
            rest == chars@.skip(pos as int),
            i <= n,
            forall|j: int| 0 <= j < i ==> rest[j] == pat@[j],
        decreases n - i,
    {
        if pat.as_str().get_char(i) != chars[pos + i] {
            assert(rest.take(n as int)[i as int] != pat@[i as int]);
            return false;
        }
        i += 1;
    }
    assert(rest.take(n as int) =~= pat@);
    true
}

/// The first rule of `rules` that applies at position `pos` of `chars`.
pub(crate) fn find_match(rules: &Vec<(String, String)>, chars: &Vec<char>, pos: usize) -> (r: Option<usize>)
    requires
        pos <= chars@.len(),
    ensures
        match r {
            Some(k) => first_match(table_of(rules@), chars@.skip(pos as int), k as int),
            None => forall|k: int|
                0 <= k < rules@.len() ==> !applies(#[trigger] table_of(rules@)[k].0, chars@.skip(pos as int)),
        },
{
    let ghost t = table_of(rules@);
    let mut k: usize = 0;
    while k < rules.len()
        invariant
            pos <= chars@.len(),
            t == table_of(rules@),
            k <= rules@.len(),
            forall|j: int| 0 <= j < k ==> !applies(#[trigger] t[j].0, chars@.skip(pos as int)),
        decreases rules.len() - k,
    {
        if applies_at(&rules[k].0, chars, pos) {
            return Some(k);
        }
        k += 1;
    }
    None
}

/// Greedy evaluation of `input` against `rules`.
fn eval_rules(rules: &Vec<(String, String)>, input: &String) -> (r: Result<String, ProgramError>)
    ensures
        match r {
            Ok(o) => eval_spec(table_of(rules@), input@) == Some(o@),
            Err(e) => eval_spec(table_of(rules@), input@) is None && e == ProgramError::NoMatchingRule,
        },
{
    let ghost t = table_of(rules@);
    let chars = chars_of(input);
    let mut out = String::new();
    let mut pos: usize = 0;
    assert(input@.skip(0) =~= input@);
    assert(out@ + Seq::<char>::empty() =~= Seq::<char>::empty());
    assert(eval_spec(t, Seq::<char>::empty()) == Some(Seq::<char>::empty()));
    while pos < chars.len()
        invariant
            t == table_of(rules@),
            chars@ == input@,
            pos <= chars@.len(),
            eval_spec(t, input@) == prepend(out@, eval_spec(t, input@.skip(pos as int))),
        decreases chars.len() - pos,
    {
        match find_match(rules, &chars, pos) {
            None => {
                let ghost rest = input@.skip(pos as int);
                assert(!exists|k: int| first_match(t, rest, k));
                return Err(ProgramError::NoMatchingRule);
            },
            Some(k) => {
                let ghost rest = input@.skip(pos as int);
                let ghost old_out = out@;
                let ghost rep = t[k as int].1;
                proof {
                    lemma_eval_step(t, rest, k as int);
                    assert(rest.skip(t[k as int].0.len() as int) =~= input@.skip(
                        pos + t[k as int].0.len(),
                    ));
                }
                let n = rules[k].0.as_str().unicode_len();
                out.append(rules[k].1.as_str());
                proof {
                    match eval_spec(t, input@.skip(pos + n)) {
                        Some(q) => {
                            assert(old_out + (rep + q) =~= (old_out + rep) + q);
                        },
                        None => {},
                    }
                }
                pos = pos + n;
            },
        }
    }
    assert(input@.skip(pos as int).len() == 0);
    assert(out@ + Seq::<char>::empty() =~= out@);
    Ok(out)
}

proof fn lemma_lex_less_skip(a: Seq<char>, b: Seq<char>, i: int)
    requires
        0 <= i <= a.len(),
        i <= b.len(),
        a.take(i) == b.take(i),
    ensures
        lex_less(a, b) == lex_less(a.skip(i), b.skip(i)),
    decreases i,
{
    if i > 0 {
        assert(a[0] == a.take(i)[0]);
        assert(b[0] == b.take(i)[0]);
        assert(a.drop_first().take(i - 1) =~= a.take(i).drop_first());
        assert(b.drop_first().take(i - 1) =~= b.take(i).drop_first());
        lemma_lex_less_skip(a.drop_first(), b.drop_first(), i - 1);
        assert(a.drop_first().skip(i - 1) =~= a.skip(i));
        assert(b.drop_first().skip(i - 1) =~= b.skip(i));
    } else {
        assert(a.skip(0) =~= a);
        assert(b.skip(0) =~= b);
    }
}

/// Whether `a` comes strictly before `b` in lexicographic order.
fn string_less(a: &String, b: &String) -> (r: bool)
    ensures
        r == lex_less(a@, b@),
{
    let na = a.as_str().unicode_len();
    let nb = b.as_str().unicode_len();
    let mut i: usize = 0;
    while i < na && i < nb
        invariant
            na == a@.len(),
            nb == b@.len(),
            i <= na,
            i <= nb,
            a@.take(i as int) == b@.take(i as int),
        decreases na - i,
    {
        let ca = a.as_str().get_char(i);
        let cb = b.as_str().get_char(i);
        if ca != cb {
            proof {
                lemma_lex_less_skip(a@, b@, i as int);
                assert(a@.skip(i as int)[0] == ca);
                assert(b@.skip(i as int)[0] == cb);
            }
            return (ca as u32) < (cb as u32);
        }
        assert(a@.take(i + 1) =~= a@.take(i as int).push(ca));
        assert(b@.take(i + 1) =~= b@.take(i as int).push(cb));
        i += 1;
    }
    proof {
        lemma_lex_less_skip(a@, b@, i as int);
    }
    i < nb
}

/// Whether rule `a` goes strictly before rule `b` in a table of `mode`.
fn rule_goes_before(mode: Mode, a: &(String, String), b: &(String, String)) -> (r: bool)
    ensures
        r == goes_before(mode, (a.0@, a.1@), (b.0@, b.1@)),
{
    match mode {
        Mode::Compress => {
            let la = a.1.as_str().unicode_len();
            let lb = b.1.as_str().unicode_len();
            la < lb || (la == lb && string_less(&a.1, &b.1))
        },
        Mode::Decompress => {
            let la = a.0.as_str().unicode_len();
            let lb = b.0.as_str().unicode_len();
            la > lb || (la == lb && string_less(&b.0, &a.0))
        },
    }
}

proof fn lemma_insert_sorted_at(mode: Mode, t: Seq<RuleSeq>, x: RuleSeq, k: int)
    requires
        0 <= k <= t.len(),
        forall|j: int| 0 <= j < k ==> !goes_before(mode, x, #[trigger] t[j]),
        k == t.len() || goes_before(mode, x, t[k]),
    ensures
        insert_sorted(mode, t, x) == t.insert(k, x),
    decreases k,
{
    if t.len() == 0 {
        assert(t.insert(k, x) =~= seq![x]);
    } else if k == 0 {
        assert(t.insert(k, x) =~= seq![x] + t);
    } else {
        assert(!goes_before(mode, x, t[0]));
        let d = t.drop_first();
        assert forall|j: int| 0 <= j < k - 1 implies !goes_before(mode, x, #[trigger] d[j]) by {
            assert(d[j] == t[j + 1]);
        }
        lemma_insert_sorted_at(mode, d, x, k - 1);
        assert(seq![t[0]] + d.insert(k - 1, x) =~= t.insert(k, x));
    }
}

proof fn lemma_table_insert(v: Seq<(String, String)>, k: int, x: (String, String))
    requires
        0 <= k <= v.len(),
    ensures
        table_of(v.insert(k, x)) == table_of(v).insert(k, (x.0@, x.1@)),
{
    assert(table_of(v.insert(k, x)) =~= table_of(v).insert(k, (x.0@, x.1@)));
}

/// Places `x` into the ordered table `v` before the first rule it goes before.
fn insert_rule(mode: Mode, v: &mut Vec<(String, String)>, x: (String, String))
    ensures
        table_of(final(v)@) == insert_sorted(mode, table_of(old(v)@), (x.0@, x.1@)),
{
    let ghost t = table_of(v@);
    let mut k: usize = 0;
    while k < v.len()
        invariant
            t == table_of(v@),
            k <= v@.len(),
            forall|j: int| 0 <= j < k ==> !goes_before(mode, (x.0@, x.1@), #[trigger] t[j]),
        ensures
            k <= v@.len(),
            k == v@.len() || goes_before(mode, (x.0@, x.1@), t[k as int]),
        decreases v.len() - k,
    {
        if rule_goes_before(mode, &x, &v[k]) {
            break;
        }
        k += 1;
    }
    proof {
        lemma_insert_sorted_at(mode, t, (x.0@, x.1@), k as int);
        lemma_table_insert(v@, k as int, x);
    }
    v.insert(k, x);
}

/// A copy of a rule.
fn clone_rule(r: &(String, String)) -> (c: (String, String))
    ensures
        c.0@ == r.0@,
        c.1@ == r.1@,
{
    (r.0.clone(), r.1.clone())
}

/// The rules of `v`, in the order of `mode`.
fn sort_rules(mode: Mode, v: &Vec<(String, String)>) -> (r: Vec<(String, String)>)
    ensures
        table_of(r@) == sort_spec(mode, table_of(v@)),
{
    let ghost t = table_of(v@);
    let mut r: Vec<(String, String)> = Vec::new();
    let mut i: usize = 0;
    assert(t.take(0) =~= Seq::<RuleSeq>::empty());
    assert(table_of(r@) =~= Seq::<RuleSeq>::empty());
    while i < v.len()
        invariant
            t == table_of(v@),
            i <= v@.len(),
            table_of(r@) == sort_spec(mode, t.take(i as int)),
        decreases v.len() - i,
    {
        let x = clone_rule(&v[i]);
        insert_rule(mode, &mut r, x);
        proof {
            let ti = t.take(i + 1);
            assert(ti.drop_last() =~= t.take(i as int));
            assert(ti.last() == t[i as int]);
        }
        i += 1;
    }
    assert(t.take(v@.len() as int) =~= t);
    r
}

/// Length of the leading run of binary digits of `s`.
pub open spec fn bit_run_len(s: Seq<char>) -> nat
    decreases s.len(),
{
    if s.len() > 0 && is_bit(s[0]) {
        1 + bit_run_len(s.drop_first())
    } else {
        0
    }
}

/// `i` is the first rule of `t` whose pattern is `key`.
pub open spec fn first_key(t: Seq<RuleSeq>, key: Seq<char>, i: int) -> bool {
    &&& 0 <= i < t.len()
    &&& t[i].0 == key
    &&& forall|j: int| 0 <= j < i ==> #[trigger] t[j].0 != key
}

/// The table with `key` rewritten to `val`: in place where the pattern is
/// there already, else inserted in decompression order.
pub open spec fn set_rule(t: Seq<RuleSeq>, key: Seq<char>, val: Seq<char>) -> Seq<RuleSeq> {
    if exists|i: int| first_key(t, key, i) {
        let i = choose|i: int| first_key(t, key, i);
        t.update(i, (key, val))
    } else {
        insert_sorted(Mode::Decompress, t, (key, val))
    }
}

/// Outcome of normalizing: the table as it stands afterwards, and the text.
pub type NormResult = Result<(Seq<RuleSeq>, Seq<char>), ProgramError>;

/// `p` in front of the text of a normalization outcome.
pub open spec fn join(p: Seq<char>, r: NormResult) -> NormResult {
    match r {
        Ok((t, q)) => Ok((t, p + q)),
        Err(e) => Err(e),
    }
}

/// Normalization of `s` against `t`: characters that are not binary digits
/// stay; each maximal run of binary digits is evaluated; a result that still
/// holds binary digits is normalized in turn, one level of `fuel` deeper, and
/// the outcome is stored in the table under the run.
pub open spec fn norm_spec(t: Seq<RuleSeq>, s: Seq<char>, fuel: nat) -> NormResult
    decreases fuel, s.len()
        via norm_spec_decreases
{
    if s.len() == 0 {
        Ok((t, Seq::empty()))
    } else if !is_bit(s[0]) {
        join(seq![s[0]], norm_spec(t, s.drop_first(), fuel))
    } else {
        let n = bit_run_len(s);
        let run = s.take(n as int);
        let rest = s.skip(n as int);
        match eval_spec(t, run) {
            None => Err(ProgramError::NoMatchingRule),
            Some(e) => if !has_bit(e) {
                join(e, norm_spec(t, rest, fuel))
            } else if fuel == 0 {
                Err(ProgramError::UnresolvedRecursiveReplacement)
            } else {
                match norm_spec(t, e, (fuel - 1) as nat) {
                    Err(x) => Err(x),
                    Ok((t1, r1)) => join(r1, norm_spec(set_rule(t1, run, r1), rest, fuel)),
                }
            },
        }
    }
}

proof fn lemma_bit_run_len_bound(s: Seq<char>)
    ensures
        bit_run_len(s) <= s.len(),
        s.len() > 0 && is_bit(s[0]) ==> bit_run_len(s) >= 1,
    decreases s.len(),
{
    if s.len() > 0 && is_bit(s[0]) {
        lemma_bit_run_len_bound(s.drop_first());
    }
}

#[via_fn]
proof fn norm_spec_decreases(t: Seq<RuleSeq>, s: Seq<char>, fuel: nat) {
    lemma_bit_run_len_bound(s);
}

/// Normalization of the replacements of `t0` from index `k` on, each stored
/// back under its pattern; `t` is the table so far.
pub open spec fn norm_all(t0: Seq<RuleSeq>, k: nat, t: Seq<RuleSeq>) -> Result<
    Seq<RuleSeq>,
    ProgramError,
>
    decreases t0.len() - k,
{
    if k >= t0.len() {
        Ok(t)
    } else {
        match norm_spec(t, t0[k as int].1, t0.len()) {
            Err(e) => Err(e),
            Ok((t1, r)) => norm_all(t0, k + 1, set_rule(t1, t0[k as int].0, r)),
        }
    }
}

proof fn lemma_bit_run_len(s: Seq<char>, n: int)
    requires
        0 <= n <= s.len(),
        forall|j: int| 0 <= j < n ==> is_bit(#[trigger] s[j]),
        n == s.len() || !is_bit(s[n]),
    ensures
        bit_run_len(s) == n,
    decreases n,
{
    if n > 0 {
        let d = s.drop_first();
        assert forall|j: int| 0 <= j < n - 1 implies is_bit(#[trigger] d[j]) by {
            assert(d[j] == s[j + 1]);
        }
        if n < s.len() {
            assert(d[n - 1] == s[n]);
        }
        lemma_bit_run_len(d, n - 1);
    }
}

proof fn lemma_join_join(a: Seq<char>, b: Seq<char>, r: NormResult)
    ensures
        join(a, join(b, r)) == join(a + b, r),
{
    match r {
        Ok((t, q)) => {
            assert(a + (b + q) =~= (a + b) + q);
        },
        Err(e) => {},
    }
}

/// Stores `val` under `key`, as `set_rule` says.
fn set_rule_exec(rules: &mut Vec<(String, String)>, key: String, val: String)
    ensures
        table_of(final(rules)@) == set_rule(table_of(old(rules)@), key@, val@),
{
    let ghost t = table_of(rules@);
    let mut i: usize = 0;
    while i < rules.len()
        invariant
            t == table_of(rules@),
            t == table_of(old(rules)@),
            i <= rules@.len(),
            forall|j: int| 0 <= j < i ==> #[trigger] t[j].0 != key@,
        decreases rules.len() - i,
    {
        if rules[i].0 == key {
            proof {
                assert(first_key(t, key@, i as int));
                let c = choose|c: int| first_key(t, key@, c);
                if c < i {
                    assert(t[c].0 != key@);
                } else if i < c {
                    assert(t[i as int].0 != key@);
                }
            }
            let ghost kv = (key@, val@);
            assert(set_rule(t, key@, val@) == t.update(i as int, kv));
            rules.set(i, (key, val));
            assert(table_of(rules@) =~= t.update(i as int, kv));
            return;
        }
        i += 1;
    }
    assert(!exists|c: int| first_key(t, key@, c));
    insert_rule(Mode::Decompress, rules, (key, val));
}

/// The characters `v[from..to]` as a string.
pub(crate) fn string_of_range(v: &Vec<char>, from: usize, to: usize) -> (r: String)
    requires
        from <= to <= v@.len(),
    ensures
        r@ == v@.subrange(from as int, to as int),
{
    let mut r = String::new();
    let mut i: usize = from;
    while i < to
        invariant
            from <= i <= to,
            to <= v@.len(),
            r@ == v@.subrange(from as int, i as int),
        decreases to - i,
    {
        crate::text::push_char(&mut r, v[i]);
        i += 1;
        assert(r@ =~= v@.subrange(from as int, i as int));
    }
    r
}

/// Normalizes `rhs` against `rules`, storing resolved nested codewords.
fn normalize_rhs(rules: &mut Vec<(String, String)>, rhs: &String, fuel: usize) -> (r: Result<
    String,
    ProgramError,
>)
    ensures
        match r {
            Ok(o) => norm_spec(table_of(old(rules)@), rhs@, fuel as nat) == Ok::<
                (Seq<RuleSeq>, Seq<char>),
                ProgramError,
            >((table_of(final(rules)@), o@)),
            Err(e) => norm_spec(table_of(old(rules)@), rhs@, fuel as nat) == Err::<
                (Seq<RuleSeq>, Seq<char>),
                ProgramError,
            >(e),
        },
    decreases fuel,
{
    let ghost t0 = table_of(rules@);
    let ghost s = rhs@;
    let chars = chars_of(rhs);
    let mut ans = String::new();
    let mut i: usize = 0;
    proof {
        assert(s.skip(0) =~= s);
        match norm_spec(t0, s, fuel as nat) {
            Ok((t, q)) => {
                assert(Seq::<char>::empty() + q =~= q);
            },
            Err(e) => {},
        }
    }
    while i < chars.len()
        invariant
            chars@ == s,
            t0 == table_of(old(rules)@),
            s == rhs@,
            i <= chars@.len(),
            norm_spec(t0, s, fuel as nat) == join(
                ans@,
                norm_spec(table_of(rules@), s.skip(i as int), fuel as nat),
            ),
        decreases chars.len() - i,
    {
        let ghost tc = table_of(rules@);
        let ghost si = s.skip(i as int);
        let c = chars[i];
        assert(si[0] == c);
        if !char_is_bit(c) {
            proof {
                assert(si.drop_first() =~= s.skip(i + 1));
                lemma_join_join(ans@, seq![c], norm_spec(tc, s.skip(i + 1), fuel as nat));
            }
            let ghost old_ans = ans@;
            crate::text::push_char(&mut ans, c);
            assert(ans@ =~= old_ans + seq![c]);
            i += 1;
        } else {
            let mut j: usize = i;
            while j < chars.len() && char_is_bit(chars[j])
                invariant
                    chars@ == s,
                    i <= j <= chars@.len(),
                    forall|m: int| i <= m < j ==> is_bit(#[trigger] s[m]),
                decreases chars.len() - j,
            {
                j += 1;
            }
            proof {
                assert(j > i) by {
                    assert(is_bit(s[i as int]));
                }
                assert forall|m: int| 0 <= m < j - i implies is_bit(#[trigger] si[m]) by {
                    assert(si[m] == s[i + m]);
                }
                if j < chars@.len() {
                    assert(si[j - i] == s[j as int]);
                }
                lemma_bit_run_len(si, j - i);
            }
            let tmp = string_of_range(&chars, i, j);
            proof {
                assert(tmp@ =~= si.take(j - i));
                assert(si.skip(j - i) =~= s.skip(j as int));
            }
            let e = match eval_rules(rules, &tmp) {
                Ok(e) => e,
                Err(x) => {
                    return Err(x);
                },
            };
            if !contains_bit(&e) {
                proof {
                    lemma_join_join(ans@, e@, norm_spec(tc, s.skip(j as int), fuel as nat));
                }
                ans.append(e.as_str());
            } else {
                if fuel == 0 {
                    return Err(ProgramError::UnresolvedRecursiveReplacement);
                }
                let norm = match normalize_rhs(rules, &e, fuel - 1) {
                    Ok(n) => n,
                    Err(x) => {
                        return Err(x);
                    },
                };
                let ghost t1 = table_of(rules@);
                set_rule_exec(rules, tmp, norm.clone());
                proof {
                    lemma_join_join(
                        ans@,
                        norm@,
                        norm_spec(set_rule(t1, si.take(j - i), norm@), s.skip(j as int), fuel as nat),
                    );
                }
                ans.append(norm.as_str());
            }
            i = j;
        }
    }
    proof {
        assert(s.skip(i as int) =~= Seq::<char>::empty());
        assert(ans@ + Seq::<char>::empty() =~= ans@);
    }
    Ok(ans)
}

/// A copy of the table.
fn copy_rules(v: &Vec<(String, String)>) -> (r: Vec<(String, String)>)
    ensures
        table_of(r@) == table_of(v@),
{
    let mut r: Vec<(String, String)> = Vec::new();
    let mut i: usize = 0;
    while i < v.len()
        invariant
            i <= v@.len(),
            table_of(r@) == table_of(v@).take(i as int),
        decreases v.len() - i,
    {
        let c = clone_rule(&v[i]);
        proof {
            lemma_table_insert(r@, r@.len() as int, c);
            assert(r@.insert(r@.len() as int, c) =~= r@.push(c));
        }
        r.push(c);
        assert(table_of(r@) =~= table_of(v@).take(i + 1));
        i += 1;
    }
    assert(table_of(v@).take(v@.len() as int) =~= table_of(v@));
    r
}

/// Normalizes every replacement of the table, as `norm_all` says.
fn normalize_intrs(rules: &mut Vec<(String, String)>) -> (r: Result<(), ProgramError>)
    ensures
        match r {
            Ok(()) => norm_all(table_of(old(rules)@), 0, table_of(old(rules)@)) == Ok::<
                Seq<RuleSeq>,
                ProgramError,
            >(table_of(final(rules)@)),
            Err(e) => norm_all(table_of(old(rules)@), 0, table_of(old(rules)@)) == Err::<
                Seq<RuleSeq>,
                ProgramError,
            >(e),
        },
{
    let snapshot = copy_rules(rules);
    let ghost t0 = table_of(snapshot@);
    let fuel = snapshot.len();
    let mut k: usize = 0;
    while k < snapshot.len()
        invariant
            t0 == table_of(snapshot@),
            t0 == table_of(old(rules)@),
            fuel == t0.len(),
            k <= t0.len(),
            norm_all(t0, 0, t0) == norm_all(t0, k as nat, table_of(rules@)),
        decreases snapshot.len() - k,
    {
        let rhs = match normalize_rhs(rules, &snapshot[k].1, fuel) {
            Ok(n) => n,
            Err(e) => {
                return Err(e);
            },
        };
        set_rule_exec(rules, snapshot[k].0.clone(), rhs);
        k += 1;
    }
    Ok(())
}

/// The table that a program built from `rules` in `mode` holds.
pub open spec fn program_spec(mode: Mode, rules: Seq<RuleSeq>) -> Result<Seq<RuleSeq>, ProgramError> {
    match mode {
        Mode::Compress => Ok(sort_spec(Mode::Compress, rules)),
        Mode::Decompress => {
            let t = dedup_spec(sort_spec(Mode::Decompress, rules));
            norm_all(t, 0, t)
        },
    }
}

/// `t` has a rule whose pattern is `p`.
pub open spec fn has_pattern(t: Seq<RuleSeq>, p: Seq<char>) -> bool {
    exists|i: int| 0 <= i < t.len() && (#[trigger] t[i]).0 == p
}

/// `t` with every rule dropped whose pattern an earlier rule has already:
/// evaluation never reaches such a rule.
pub open spec fn dedup_spec(t: Seq<RuleSeq>) -> Seq<RuleSeq>
    decreases t.len(),
{
    if t.len() == 0 {
        t
    } else {
        let d = dedup_spec(t.drop_last());
        if has_pattern(d, t.last().0) {
            d
        } else {
            d.push(t.last())
        }
    }
}

pub(crate) proof fn lemma_dedup(t: Seq<RuleSeq>)
    ensures
        distinct_patterns(dedup_spec(t)),
        forall|p: Seq<char>| has_pattern(dedup_spec(t), p) <==> has_pattern(t, p),
        distinct_patterns(t) ==> dedup_spec(t) == t,
    decreases t.len(),
{
    if t.len() > 0 {
        let dl = t.drop_last();
        let x = t.last();
        lemma_dedup(dl);
        let d = dedup_spec(dl);
        assert forall|p: Seq<char>| has_pattern(dl, p) implies has_pattern(t, p) by {
            let i = choose|i: int| 0 <= i < dl.len() && (#[trigger] dl[i]).0 == p;
            assert(t[i] == dl[i]);
        }
        assert(t[t.len() - 1] == x);
        assert forall|p: Seq<char>| has_pattern(t, p) implies has_pattern(dl, p) || p == x.0 by {
            let i = choose|i: int| 0 <= i < t.len() && (#[trigger] t[i]).0 == p;
            if i < dl.len() {
                assert(dl[i] == t[i]);
            }
        }
        if !has_pattern(d, x.0) {
            let e = d.push(x);
            assert forall|i: int, j: int|
                0 <= i < e.len() && 0 <= j < e.len() && i != j implies e[i].0 != e[j].0 by {
                if i == d.len() as int {
                    assert(e[j] == d[j]);
                } else if j == d.len() as int {
                    assert(e[i] == d[i]);
                } else {
                    assert(e[i] == d[i] && e[j] == d[j]);
                }
            }
            assert forall|p: Seq<char>| has_pattern(e, p) <==> has_pattern(t, p) by {
                if has_pattern(e, p) {
                    let i = choose|i: int| 0 <= i < e.len() && (#[trigger] e[i]).0 == p;
                    if i < d.len() {
                        assert(e[i] == d[i]);
                    }
                }
                if has_pattern(t, p) {
                    if has_pattern(dl, p) {
                        let i = choose|i: int| 0 <= i < d.len() && (#[trigger] d[i]).0 == p;
                        assert(e[i] == d[i]);
                    } else {
                        assert(e[d.len() as int] == x);
                    }
                }
            }
        }
        if distinct_patterns(t) {
            assert(distinct_patterns(dl)) by {
                assert forall|i: int, j: int|
                    0 <= i < dl.len() && 0 <= j < dl.len() && i != j implies dl[i].0 != dl[j].0 by {
                    assert(dl[i] == t[i] && dl[j] == t[j]);
                }
            }
            assert(!has_pattern(dl, x.0)) by {
                if has_pattern(dl, x.0) {
                    let i = choose|i: int| 0 <= i < dl.len() && (#[trigger] dl[i]).0 == x.0;
                    assert(t[i] == dl[i]);
                }
            }
            assert(dl.push(x) =~= t);
        }
    }
}

/// The rules of `v` without those whose pattern an earlier rule has.
fn dedup_patterns(v: &Vec<(String, String)>) -> (r: Vec<(String, String)>)
    ensures
        table_of(r@) == dedup_spec(table_of(v@)),
{
    let ghost t = table_of(v@);
    let mut r: Vec<(String, String)> = Vec::new();
    let mut i: usize = 0;
    assert(t.take(0) =~= Seq::<RuleSeq>::empty());
    assert(table_of(r@) =~= Seq::<RuleSeq>::empty());
    while i < v.len()
        invariant
            t == table_of(v@),
            i <= v@.len(),
            table_of(r@) == dedup_spec(t.take(i as int)),
        decreases v.len() - i,
    {
        let ghost d = table_of(r@);
        let mut k: usize = 0;
        while k < r.len()
            invariant
                d == table_of(r@),
                k <= r@.len(),
                forall|j: int| 0 <= j < k ==> #[trigger] d[j].0 != v@[i as int].0@,
                i < v@.len(),
            ensures
                k <= r@.len(),
                k < r@.len() ==> d[k as int].0 == v@[i as int].0@,
                k == r@.len() ==> !has_pattern(d, v@[i as int].0@),
            decreases r.len() - k,
        {
            if r[k].0 == v[i].0 {
                break;
            }
            k += 1;
        }
        proof {
            let ti = t.take(i + 1);
            assert(ti.drop_last() =~= t.take(i as int));
            assert(ti.last() == t[i as int]);
        }
        if k == r.len() {
            let c = clone_rule(&v[i]);
            proof {
                lemma_table_insert(r@, r@.len() as int, c);
                assert(r@.insert(r@.len() as int, c) =~= r@.push(c));
            }
            r.push(c);
        }
        i += 1;
    }
    assert(t.take(v@.len() as int) =~= t);
    r
}

/// An ordered rule table with its mode.
pub struct Program {
    instr: Vec<(String, String)>,
    mode: Mode,
}

impl Program {
    /// The table, as sequences of characters.
    pub closed spec fn table(&self) -> Seq<RuleSeq> {
        table_of(self.instr@)
    }

    /// The mode the program was built in.
    pub closed spec fn mode_of(&self) -> Mode {
        self.mode
    }

    /// Sorts `instr` in the order of `mode`; when decompressing, drops every
    /// rule whose pattern an earlier rule already has (evaluation would never
    /// reach it) and normalizes every replacement.
    pub fn new(instr: Vec<(String, String)>, mode: Mode) -> (r: Result<Program, ProgramError>)
        ensures
            match r {
                Ok(p) => program_spec(mode, table_of(instr@)) == Ok::<Seq<RuleSeq>, ProgramError>(
                    p.table(),
                ) && p.mode_of() == mode,
                Err(e) => program_spec(mode, table_of(instr@)) == Err::<Seq<RuleSeq>, ProgramError>(
                    e,
                ),
            },
            mode == Mode::Compress ==> r is Ok,
            mode == Mode::Decompress && r is Ok ==> distinct_patterns(r->Ok_0.table()) && terminal(
                r->Ok_0.table(),
            ),
    {
        let mut sorted = sort_rules(mode, &instr);
        match mode {
            Mode::Compress => {},
            Mode::Decompress => {
                sorted = dedup_patterns(&sorted);
                proof {
                    let t = table_of(sorted@);
                    lemma_dedup(sort_spec(Mode::Decompress, table_of(instr@)));
                    assert forall|i: int| 0 <= i < t.len() && has_bit(#[trigger] t[i].1) implies exists|
                        j: int,
                    | 0 <= j < t.skip(0).len() && (#[trigger] t.skip(0)[j]).0 == t[i].0 by {
                        assert(t.skip(0)[i] == t[i]);
                    }
                    lemma_norm_all_keeps(t, 0, t);
                }
                match normalize_intrs(&mut sorted) {
                    Ok(()) => {},
                    Err(e) => {
                        return Err(e);
                    },
                }
            },
        }
        Ok(Program { instr: sorted, mode })
    }

    /// The rules in evaluation order.
    pub fn rules(&self) -> (r: &Vec<(String, String)>)
        ensures
            table_of(r@) == self.table(),
    {
        &self.instr
    }

    /// The mode the program was built in.
    pub fn mode(&self) -> (r: Mode)
        ensures
            r == self.mode_of(),
    {
        self.mode
    }

    /// Rewrites `to_decipher` greedily from the left, the first rule whose
    /// pattern is a prefix of what is left winning each step.
    pub fn eval(&self, to_decipher: String) -> (r: Result<String, ProgramError>)
        ensures
            match r {
                Ok(o) => eval_spec(self.table(), to_decipher@) == Some(o@),
                Err(e) => eval_spec(self.table(), to_decipher@) is None && e
                    == ProgramError::NoMatchingRule,
            },
    {
        eval_rules(&self.instr, &to_decipher)
    }
}

proof fn lemma_norm_terminal(t: Seq<RuleSeq>, s: Seq<char>, fuel: nat)
    requires
        !has_bit(s),
    ensures
        norm_spec(t, s, fuel) == Ok::<(Seq<RuleSeq>, Seq<char>), ProgramError>((t, s)),
    decreases s.len(),
{
    if s.len() > 0 {
        assert(!is_bit(s[0]));
        let d = s.drop_first();
        assert(!has_bit(d)) by {
            assert forall|i: int| 0 <= i < d.len() implies !is_bit(#[trigger] d[i]) by {
                assert(d[i] == s[i + 1]);
            }
        }
        lemma_norm_terminal(t, d, fuel);
        assert(seq![s[0]] + d =~= s);
    } else {
        assert(s =~= Seq::<char>::empty());
    }
}

/// Patterns of `t` are pairwise distinct.
pub open spec fn distinct_patterns(t: Seq<RuleSeq>) -> bool {
    forall|i: int, j: int| 0 <= i < t.len() && 0 <= j < t.len() && i != j ==> t[i].0 != t[j].0
}

/// No replacement of `t` holds a binary digit.
pub open spec fn terminal(t: Seq<RuleSeq>) -> bool {
    forall|i: int| 0 <= i < t.len() ==> !has_bit(#[trigger] t[i].1)
}

proof fn lemma_norm_all_terminal(t: Seq<RuleSeq>, k: nat)
    requires
        distinct_patterns(t),
        terminal(t),
        k <= t.len(),
    ensures
        norm_all(t, k, t) == Ok::<Seq<RuleSeq>, ProgramError>(t),
    decreases t.len() - k,
{
    if k < t.len() {
        let ki = k as int;
        assert(!has_bit(t[ki].1));
        lemma_norm_terminal(t, t[ki].1, t.len());
        assert(first_key(t, t[ki].0, ki));
        let c = choose|c: int| first_key(t, t[ki].0, c);
        assert(c == ki);
        assert(t.update(ki, (t[ki].0, t[ki].1)) =~= t);
        lemma_norm_all_terminal(t, k + 1);
    }
}

/// Normalizing a table whose patterns are distinct and whose replacements
/// are already free of binary digits leaves every rule as it was.
pub proof fn lemma_normalize_idempotent(t: Seq<RuleSeq>)
    requires
        distinct_patterns(t),
        terminal(t),
    ensures
        norm_all(t, 0, t) == Ok::<Seq<RuleSeq>, ProgramError>(t),
{
    lemma_norm_all_terminal(t, 0);
}

/// Patterns of `t` are non-empty and none is a prefix of another's.
pub open spec fn patterns_prefix_free(t: Seq<RuleSeq>) -> bool {
    &&& forall|i: int| 0 <= i < t.len() ==> #[trigger] t[i].0.len() > 0
    &&& forall|i: int, j: int|
        0 <= i < t.len() && 0 <= j < t.len() && i != j ==> !(#[trigger] t[i].0).is_prefix_of(
            #[trigger] t[j].0,
        )
}

proof fn lemma_two_prefixes(a: Seq<char>, b: Seq<char>, s: Seq<char>)
    requires
        a.is_prefix_of(s),
        b.is_prefix_of(s),
        a.len() <= b.len(),
    ensures
        a.is_prefix_of(b),
{
    assert forall|i: int| 0 <= i < a.len() implies #[trigger] b[i] == a[i] by {
        assert(s.take(a.len() as int)[i] == s[i]);
        assert(s.take(b.len() as int)[i] == s[i]);
    }
    assert(b.take(a.len() as int) =~= a);
}

/// Decoding undoes encoding: when each rule of `t`, with pattern and
/// replacement swapped, is a rule of `d`, and the patterns of `d` are
/// non-empty and prefix-free, evaluating against `d` what evaluating `input`
/// against `t` gave yields `input` again.
pub proof fn lemma_round_trip(t: Seq<RuleSeq>, d: Seq<RuleSeq>, input: Seq<char>)
    requires
        forall|k: int| 0 <= k < t.len() ==> d.contains(((#[trigger] t[k]).1, t[k].0)),
        patterns_prefix_free(d),
        eval_spec(t, input) is Some,
    ensures
        eval_spec(d, eval_spec(t, input)->Some_0) == Some(input),
    decreases input.len(),
{
    if input.len() == 0 {
        assert(eval_spec(t, input) == Some(Seq::<char>::empty()));
    } else {
        let k = choose|k: int| first_match(t, input, k);
        let n = t[k].0.len() as int;
        let rest = input.skip(n);
        lemma_round_trip(t, d, rest);
        let bits_rest = eval_spec(t, rest)->Some_0;
        let bits = t[k].1 + bits_rest;
        assert(eval_spec(t, input) == Some(bits));
        assert(d.contains((t[k].1, t[k].0)));
        let j = choose|j: int| 0 <= j < d.len() && d[j] == (t[k].1, t[k].0);
        assert(d[j].0.len() > 0);
        assert(bits.take(d[j].0.len() as int) =~= d[j].0);
        assert(applies(d[j].0, bits));
        assert forall|i: int| 0 <= i < j implies !applies(#[trigger] d[i].0, bits) by {
            if applies(d[i].0, bits) {
                assert(d[i].0.is_prefix_of(bits));
                assert(d[j].0.is_prefix_of(bits));
                if d[i].0.len() <= d[j].0.len() {
                    lemma_two_prefixes(d[i].0, d[j].0, bits);
                } else {
                    lemma_two_prefixes(d[j].0, d[i].0, bits);
                }
            }
        }
        assert(first_match(d, bits, j));
        lemma_eval_step(d, bits, j);
        assert(bits.skip(d[j].0.len() as int) =~= bits_rest);
        assert(t[k].0 + rest =~= input) by {
            assert(input.take(n) == t[k].0);
        }
    }
}

/// Every two entries of `t` at distinct positions stand in relation `r`.
pub open spec fn pairwise(t: Seq<RuleSeq>, r: spec_fn(RuleSeq, RuleSeq) -> bool) -> bool {
    forall|i: int, j: int| 0 <= i < t.len() && 0 <= j < t.len() && i != j ==> r(t[i], t[j])
}

proof fn lemma_insert_sorted_is_insert(mode: Mode, t: Seq<RuleSeq>, x: RuleSeq)
    ensures
        exists|k: int| 0 <= k <= t.len() && insert_sorted(mode, t, x) == t.insert(k, x),
    decreases t.len(),
{
    if t.len() == 0 {
        assert(insert_sorted(mode, t, x) == t.insert(0, x));
    } else if goes_before(mode, x, t[0]) {
        assert(insert_sorted(mode, t, x) =~= t.insert(0, x));
    } else {
        let d = t.drop_first();
        lemma_insert_sorted_is_insert(mode, d, x);
        let k = choose|k: int| 0 <= k <= d.len() && insert_sorted(mode, d, x) == d.insert(k, x);
        assert(insert_sorted(mode, t, x) =~= t.insert(k + 1, x));
    }
}

/// Sorting keeps the entries, and every relation that held between each two
/// of them.
pub proof fn lemma_sort_keeps(mode: Mode, t: Seq<RuleSeq>, r: spec_fn(RuleSeq, RuleSeq) -> bool)
    ensures
        sort_spec(mode, t).len() == t.len(),
        forall|e: RuleSeq| sort_spec(mode, t).contains(e) <==> t.contains(e),
        pairwise(t, r) ==> pairwise(sort_spec(mode, t), r),
    decreases t.len(),
{
    if t.len() > 0 {
        let d = t.drop_last();
        let x = t.last();
        lemma_sort_keeps(mode, d, r);
        let sd = sort_spec(mode, d);
        lemma_insert_sorted_is_insert(mode, sd, x);
        let k = choose|k: int| 0 <= k <= sd.len() && insert_sorted(mode, sd, x) == sd.insert(k, x);
        let st = sd.insert(k, x);
        assert(sort_spec(mode, t) == st);
        assert forall|e: RuleSeq| st.contains(e) <==> t.contains(e) by {
            if st.contains(e) {
                let i = choose|i: int| 0 <= i < st.len() && st[i] == e;
                if i == k {
                    assert(t[t.len() - 1] == e);
                } else {
                    let m = if i < k { i } else { i - 1 };
                    assert(st[i] == sd[m]);
                    assert(sd.contains(e));
                    assert(d.contains(e));
                    let n = choose|n: int| 0 <= n < d.len() && d[n] == e;
                    assert(t[n] == e);
                }
            }
            if t.contains(e) {
                let i = choose|i: int| 0 <= i < t.len() && t[i] == e;
                if i == t.len() - 1 {
                    assert(st[k] == e);
                } else {
                    assert(d[i] == e);
                    assert(d.contains(e));
                    assert(sd.contains(e));
                    let m = choose|m: int| 0 <= m < sd.len() && sd[m] == e;
                    if m < k {
                        assert(st[m] == e);
                    } else {
                        assert(st[m + 1] == e);
                    }
                }
            }
        }
        if pairwise(t, r) {
            assert(pairwise(d, r)) by {
                assert forall|i: int, j: int|
                    0 <= i < d.len() && 0 <= j < d.len() && i != j implies r(d[i], d[j]) by {
                    assert(d[i] == t[i] && d[j] == t[j]);
                }
            }
            assert forall|m: int| 0 <= m < sd.len() implies r(x, #[trigger] sd[m]) && r(
                sd[m],
                x,
            ) by {
                assert(sd.contains(sd[m]));
                assert(d.contains(sd[m]));
                let n = choose|n: int| 0 <= n < d.len() && d[n] == sd[m];
                assert(t[n] == sd[m]);
                assert(t[t.len() - 1] == x);
            }
            assert forall|i: int, j: int|
                0 <= i < st.len() && 0 <= j < st.len() && i != j implies r(st[i], st[j]) by {
                let mi = if i < k { i } else { i - 1 };
                let mj = if j < k { j } else { j - 1 };
                if i == k {
                    assert(st[j] == sd[mj]);
                } else if j == k {
                    assert(st[i] == sd[mi]);
                } else {
                    assert(st[i] == sd[mi] && st[j] == sd[mj]);
                }
            }
        }
    }
}

/// `t` has a rule whose pattern is the single character `c`.
pub open spec fn has_rule_for(t: Seq<RuleSeq>, c: char) -> bool {
    exists|k: int| 0 <= k < t.len() && (#[trigger] t[k]).0 == seq![c]
}

/// Every pattern of `t` is a single character.
pub open spec fn single_patterns(t: Seq<RuleSeq>) -> bool {
    forall|k: int| 0 <= k < t.len() ==> (#[trigger] t[k]).0.len() == 1
}

/// Every character of `s` has a rule in `t`.
pub open spec fn covers(t: Seq<RuleSeq>, s: Seq<char>) -> bool {
    forall|i: int| 0 <= i < s.len() ==> has_rule_for(t, #[trigger] s[i])
}

proof fn lemma_first_exists(t: Seq<RuleSeq>, input: Seq<char>, k: int)
    requires
        0 <= k < t.len(),
        applies(t[k].0, input),
    ensures
        exists|j: int| first_match(t, input, j),
    decreases k,
{
    if exists|j: int| 0 <= j < k && applies(t[j].0, input) {
        let j = choose|j: int| 0 <= j < k && applies(t[j].0, input);
        lemma_first_exists(t, input, j);
    } else {
        assert(first_match(t, input, k));
    }
}

/// With single-character patterns covering the input, the rule that applies
/// first is one for the input's first character.
pub(crate) proof fn lemma_covered_step(t: Seq<RuleSeq>, input: Seq<char>)
    requires
        single_patterns(t),
        input.len() > 0,
        has_rule_for(t, input[0]),
    ensures
        exists|j: int| first_match(t, input, j),
        forall|j: int| first_match(t, input, j) ==> (#[trigger] t[j]).0 == seq![input[0]],
{
    let k = choose|k: int| 0 <= k < t.len() && (#[trigger] t[k]).0 == seq![input[0]];
    assert(input.take(1) =~= seq![input[0]]);
    lemma_first_exists(t, input, k);
    assert forall|j: int| first_match(t, input, j) implies (#[trigger] t[j]).0 == seq![input[0]] by {
        assert(t[j].0.len() == 1);
        assert(t[j].0 == input.take(1));
    }
}

pub(crate) proof fn lemma_covers_rest(t: Seq<RuleSeq>, input: Seq<char>)
    requires
        covers(t, input),
        input.len() > 0,
    ensures
        covers(t, input.skip(1)),
        has_rule_for(t, input[0]),
{
    assert forall|i: int| 0 <= i < input.skip(1).len() implies has_rule_for(
        t,
        #[trigger] input.skip(1)[i],
    ) by {
        assert(input.skip(1)[i] == input[i + 1]);
    }
}

/// Evaluation succeeds where single-character patterns cover the input.
pub(crate) proof fn lemma_eval_covered(t: Seq<RuleSeq>, input: Seq<char>)
    requires
        single_patterns(t),
        covers(t, input),
    ensures
        eval_spec(t, input) is Some,
    decreases input.len(),
{
    if input.len() > 0 {
        lemma_covers_rest(t, input);
        lemma_covered_step(t, input);
        let k = choose|k: int| first_match(t, input, k);
        assert(t[k].0.len() == 1);
        lemma_eval_covered(t, input.skip(1));
    }
}

/// Rules of `t`, sorted, keep covering `s` with single characters.
pub(crate) proof fn lemma_sort_covers(mode: Mode, t: Seq<RuleSeq>, s: Seq<char>)
    requires
        single_patterns(t),
        covers(t, s),
    ensures
        single_patterns(sort_spec(mode, t)),
        covers(sort_spec(mode, t), s),
        sort_spec(mode, t).len() == t.len(),
{
    let r = |a: RuleSeq, b: RuleSeq| true;
    lemma_sort_keeps(mode, t, r);
    let st = sort_spec(mode, t);
    assert forall|k: int| 0 <= k < st.len() implies (#[trigger] st[k]).0.len() == 1 by {
        assert(st.contains(st[k]));
        assert(t.contains(st[k]));
    }
    assert forall|i: int| 0 <= i < s.len() implies has_rule_for(st, #[trigger] s[i]) by {
        assert(has_rule_for(t, s[i]));
        let k = choose|k: int| 0 <= k < t.len() && (#[trigger] t[k]).0 == seq![s[i]];
        assert(t.contains(t[k]));
        assert(st.contains(t[k]));
        let m = choose|m: int| 0 <= m < st.len() && st[m] == t[k];
        assert(st[m].0 == seq![s[i]]);
    }
}

/// Entries of `t` whose replacement still holds a binary digit have their
/// pattern among those of `keys`.
pub open spec fn pending_in(t: Seq<RuleSeq>, keys: Seq<RuleSeq>) -> bool {
    forall|i: int|
        0 <= i < t.len() && has_bit(#[trigger] t[i].1) ==> exists|j: int|
            0 <= j < keys.len() && (#[trigger] keys[j]).0 == t[i].0
}

proof fn lemma_no_bit_concat(a: Seq<char>, b: Seq<char>)
    requires
        !has_bit(a),
        !has_bit(b),
    ensures
        !has_bit(a + b),
{
    assert forall|i: int| 0 <= i < (a + b).len() implies !is_bit(#[trigger] (a + b)[i]) by {
        if i < a.len() {
            assert((a + b)[i] == a[i]);
        } else {
            assert((a + b)[i] == b[i - a.len()]);
        }
    }
}

proof fn lemma_set_rule_keeps(t: Seq<RuleSeq>, key: Seq<char>, val: Seq<char>, keys: Seq<RuleSeq>)
    requires
        distinct_patterns(t),
        pending_in(t, keys),
        !has_bit(val),
    ensures
        distinct_patterns(set_rule(t, key, val)),
        pending_in(set_rule(t, key, val), keys),
        forall|i: int|
            0 <= i < set_rule(t, key, val).len() && has_bit(#[trigger] set_rule(t, key, val)[i].1)
                ==> set_rule(t, key, val)[i].0 != key,
{
    let t2 = set_rule(t, key, val);
    if exists|i: int| first_key(t, key, i) {
        let i = choose|i: int| first_key(t, key, i);
        assert(t2 == t.update(i, (key, val)));
        assert forall|m: int| 0 <= m < t2.len() && has_bit(#[trigger] t2[m].1) implies t2[m].0 != key
            && exists|j: int| 0 <= j < keys.len() && (#[trigger] keys[j]).0 == t2[m].0 by {
            assert(m != i);
            assert(t2[m] == t[m]);
        }
        assert forall|a: int, b: int|
            0 <= a < t2.len() && 0 <= b < t2.len() && a != b implies t2[a].0 != t2[b].0 by {
            assert(t2[a].0 == t[a].0 && t2[b].0 == t[b].0);
        }
    } else {
        let x = (key, val);
        lemma_insert_sorted_is_insert(Mode::Decompress, t, x);
        let k = choose|k: int| 0 <= k <= t.len() && insert_sorted(Mode::Decompress, t, x) == t.insert(
            k,
            x,
        );
        assert(t2 == t.insert(k, x));
        assert forall|m: int| 0 <= m < t.len() implies #[trigger] t[m].0 != key by {
            if t[m].0 == key {
                lemma_first_key_exists(t, key, m);
            }
        }
        assert forall|m: int| 0 <= m < t2.len() && has_bit(#[trigger] t2[m].1) implies t2[m].0 != key
            && exists|j: int| 0 <= j < keys.len() && (#[trigger] keys[j]).0 == t2[m].0 by {
            let m0 = if m < k { m } else { m - 1 };
            assert(m != k);
            assert(t2[m] == t[m0]);
        }
        assert forall|a: int, b: int|
            0 <= a < t2.len() && 0 <= b < t2.len() && a != b implies t2[a].0 != t2[b].0 by {
            let a0 = if a < k { a } else { a - 1 };
            let b0 = if b < k { b } else { b - 1 };
            if a == k {
                assert(t2[b] == t[b0]);
            } else if b == k {
                assert(t2[a] == t[a0]);
            } else {
                assert(t2[a] == t[a0] && t2[b] == t[b0]);
            }
        }
    }
}

proof fn lemma_first_key_exists(t: Seq<RuleSeq>, key: Seq<char>, m: int)
    requires
        0 <= m < t.len(),
        t[m].0 == key,
    ensures
        exists|i: int| first_key(t, key, i),
    decreases m,
{
    if exists|j: int| 0 <= j < m && t[j].0 == key {
        let j = choose|j: int| 0 <= j < m && t[j].0 == key;
        lemma_first_key_exists(t, key, j);
    } else {
        assert(first_key(t, key, m));
    }
}

proof fn lemma_norm_spec_keeps(t: Seq<RuleSeq>, s: Seq<char>, fuel: nat, keys: Seq<RuleSeq>)
    requires
        distinct_patterns(t),
        pending_in(t, keys),
    ensures
        norm_spec(t, s, fuel) is Ok ==> !has_bit(norm_spec(t, s, fuel)->Ok_0.1) && distinct_patterns(
            norm_spec(t, s, fuel)->Ok_0.0,
        ) && pending_in(norm_spec(t, s, fuel)->Ok_0.0, keys),
    decreases fuel, s.len(),
{
    if s.len() == 0 {
    } else if !is_bit(s[0]) {
        lemma_norm_spec_keeps(t, s.drop_first(), fuel, keys);
        if norm_spec(t, s, fuel) is Ok {
            let r = norm_spec(t, s.drop_first(), fuel)->Ok_0.1;
            lemma_no_bit_concat(seq![s[0]], r);
        }
    } else {
        lemma_bit_run_len_bound(s);
        let n = bit_run_len(s);
        let run = s.take(n as int);
        let rest = s.skip(n as int);
        match eval_spec(t, run) {
            None => {},
            Some(e) => {
                if !has_bit(e) {
                    lemma_norm_spec_keeps(t, rest, fuel, keys);
                    if norm_spec(t, s, fuel) is Ok {
                        lemma_no_bit_concat(e, norm_spec(t, rest, fuel)->Ok_0.1);
                    }
                } else if fuel > 0 {
                    lemma_norm_spec_keeps(t, e, (fuel - 1) as nat, keys);
                    match norm_spec(t, e, (fuel - 1) as nat) {
                        Err(_) => {},
                        Ok((t1, r1)) => {
                            lemma_set_rule_keeps(t1, run, r1, keys);
                            let t2 = set_rule(t1, run, r1);
                            lemma_norm_spec_keeps(t2, rest, fuel, keys);
                            if norm_spec(t, s, fuel) is Ok {
                                lemma_no_bit_concat(r1, norm_spec(t2, rest, fuel)->Ok_0.1);
                            }
                        },
                    }
                }
            },
        }
    }
}

proof fn lemma_norm_all_keeps(t0: Seq<RuleSeq>, k: nat, t: Seq<RuleSeq>)
    requires
        k <= t0.len(),
        distinct_patterns(t),
        pending_in(t, t0.skip(k as int)),
    ensures
        norm_all(t0, k, t) is Ok ==> distinct_patterns(norm_all(t0, k, t)->Ok_0) && terminal(
            norm_all(t0, k, t)->Ok_0,
        ),
    decreases t0.len() - k,
{
    if k >= t0.len() {
        assert forall|i: int| 0 <= i < t.len() implies !has_bit(#[trigger] t[i].1) by {
            if has_bit(t[i].1) {
                assert(t0.skip(k as int).len() == 0);
            }
        }
    } else {
        let ki = k as int;
        lemma_norm_spec_keeps(t, t0[ki].1, t0.len(), t0.skip(ki));
        match norm_spec(t, t0[ki].1, t0.len()) {
            Err(_) => {},
            Ok((t1, r)) => {
                lemma_set_rule_keeps(t1, t0[ki].0, r, t0.skip(ki));
                let t2 = set_rule(t1, t0[ki].0, r);
                let ks = t0.skip(ki);
                let ks1 = t0.skip(ki + 1);
                assert forall|i: int| 0 <= i < t2.len() && has_bit(#[trigger] t2[i].1) implies exists|
                    j: int,
                | 0 <= j < ks1.len() && (#[trigger] ks1[j]).0 == t2[i].0 by {
                    let j = choose|j: int| 0 <= j < ks.len() && (#[trigger] ks[j]).0 == t2[i].0;
                    assert(ks[j] == t0[ki + j]);
                    assert(j != 0);
                    assert(ks1[j - 1] == t0[ki + j]);
                }
                lemma_norm_all_keeps(t0, k + 1, t2);
            },
        }
    }
}

/// Normalization idempotence: in the table of a decompressing program no
/// replacement holds a binary digit and no two rules share a pattern, and
/// normalizing that table again changes nothing.
pub proof fn lemma_renormalize(rules: Seq<RuleSeq>)
    requires
        program_spec(Mode::Decompress, rules) is Ok,
    ensures
        terminal(program_spec(Mode::Decompress, rules)->Ok_0),
        distinct_patterns(program_spec(Mode::Decompress, rules)->Ok_0),
        norm_all(
            program_spec(Mode::Decompress, rules)->Ok_0,
            0,
            program_spec(Mode::Decompress, rules)->Ok_0,
        ) == program_spec(Mode::Decompress, rules),
{
    let t = dedup_spec(sort_spec(Mode::Decompress, rules));
    lemma_dedup(sort_spec(Mode::Decompress, rules));
    assert forall|i: int| 0 <= i < t.len() && has_bit(#[trigger] t[i].1) implies exists|j: int|
        0 <= j < t.skip(0).len() && (#[trigger] t.skip(0)[j]).0 == t[i].0 by {
        assert(t.skip(0)[i] == t[i]);
    }
    lemma_norm_all_keeps(t, 0, t);
    lemma_normalize_idempotent(norm_all(t, 0, t)->Ok_0);
}

} // verus!
