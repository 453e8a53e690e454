//! Reading a compression artifact back: the rule lines, a blank line, the
//! bits; then decoding the bits with the rules.
use vstd::prelude::*;
use vstd::string::*;
use crate::text::chars_of;
use crate::compression::{
    prefix_free, lemma_compress_table, rules_text, artifact, all_bits, compress_spec, word_code, word_table, lemma_word_compresses,
};
use crate::program::{
    first_match, sort_spec, pairwise, lemma_sort_keeps, distinct_patterns, terminal,
    lemma_normalize_idempotent, patterns_prefix_free, lemma_round_trip, lemma_dedup, has_pattern,
};
use crate::text::{is_bit, has_bit};
use crate::program::{
    ProgramError, RuleSeq, Program, Mode, table_of, program_spec, eval_spec, string_of_range,
};

verus! {

/// Length of the first line of `s`, without its newline.
pub open spec fn line_len(s: Seq<char>) -> nat
    decreases s.len(),
{
    if s.len() == 0 || s[0] == '\n' {
        0
    } else {
        1 + line_len(s.drop_first())
    }
}

/// What follows the first line of `s` and its newline.
pub open spec fn after_line(s: Seq<char>) -> Seq<char> {
    if line_len(s) < s.len() {
        s.skip((line_len(s) + 1) as int)
    } else {
        Seq::empty()
    }
}

/// The first line of `s`, without its newline and without a carriage
/// return just before that newline.
pub open spec fn line_of(s: Seq<char>) -> Seq<char> {
    let n = line_len(s);
    if n < s.len() && n > 0 && s[n - 1] == '\r' {
        s.take(n - 1)
    } else {
        s.take(n as int)
    }
}

/// Position of the first `=` of `l`.
pub open spec fn eq_pos(l: Seq<char>) -> Option<nat>
    decreases l.len(),
{
    if l.len() == 0 {
        None
    } else if l[0] == '=' {
        Some(0)
    } else {
        match eq_pos(l.drop_first()) {
            Some(k) => Some(k + 1),
            None => None,
        }
    }
}

/// The rules and the bits of an artifact, rules read so far in `acc`; a
/// line ends at a newline or at a carriage return and newline: each
/// non-empty line splits at its first `=` into pattern and
/// replacement; the first empty line ends them, and the line after it holds
/// the bits.
pub open spec fn parse_spec(s: Seq<char>, acc: Seq<RuleSeq>) -> Option<(Seq<RuleSeq>, Seq<char>)>
    decreases s.len()
        via parse_spec_decreases
{
    if s.len() == 0 {
        None
    } else {
        let line = line_of(s);
        let rest = after_line(s);
        if line.len() == 0 {
            if rest.len() == 0 {
                None
            } else {
                Some((acc, line_of(rest)))
            }
        } else {
            match eq_pos(line) {
                None => None,
                Some(k) => parse_spec(rest, acc.push((line.take(k as int), line.skip((k + 1) as int)))),
            }
        }
    }
}

proof fn lemma_line_len_bound(s: Seq<char>)
    ensures
        line_len(s) <= s.len(),
    decreases s.len(),
{
    if s.len() > 0 && s[0] != '\n' {
        lemma_line_len_bound(s.drop_first());
    }
}

#[via_fn]
proof fn parse_spec_decreases(s: Seq<char>, acc: Seq<RuleSeq>) {
    lemma_line_len_bound(s);
}

proof fn lemma_line_len(s: Seq<char>, n: int)
    requires
        0 <= n <= s.len(),
        forall|j: int| 0 <= j < n ==> #[trigger] s[j] != '\n',
        n == s.len() || s[n] == '\n',
    ensures
        line_len(s) == n,
    decreases n,
{
    if n > 0 {
        let d = s.drop_first();
        assert forall|j: int| 0 <= j < n - 1 implies #[trigger] d[j] != '\n' by {
            assert(d[j] == s[j + 1]);
        }
        if n < s.len() {
            assert(d[n - 1] == s[n]);
        }
        lemma_line_len(d, n - 1);
    }
}

proof fn lemma_eq_pos(l: Seq<char>, k: int)
    requires
        0 <= k <= l.len(),
        forall|j: int| 0 <= j < k ==> #[trigger] l[j] != '=',
    ensures
        k < l.len() && l[k] == '=' ==> eq_pos(l) == Some(k as nat),
        k == l.len() ==> eq_pos(l) is None,
    decreases k,
{
    if k > 0 {
        let d = l.drop_first();
        assert forall|j: int| 0 <= j < k - 1 implies #[trigger] d[j] != '=' by {
            assert(d[j] == l[j + 1]);
        }
        if k < l.len() {
            assert(d[k - 1] == l[k]);
        }
        lemma_eq_pos(d, k - 1);
    } else if k == l.len() {
    }
}

/// End of the line of `chars` that starts at `pos`: the next newline or the end.
fn line_end(chars: &Vec<char>, pos: usize) -> (e: usize)
    requires
        pos <= chars@.len(),
    ensures
        pos <= e <= chars@.len(),
        line_len(chars@.skip(pos as int)) == e - pos,
{
    let mut e: usize = pos;
    while e < chars.len() && chars[e] != '\n'
        invariant
            pos <= e <= chars@.len(),
            forall|j: int| pos <= j < e ==> #[trigger] chars@[j] != '\n',
        decreases chars.len() - e,
    {
        e += 1;
    }
    proof {
        let r = chars@.skip(pos as int);
        assert forall|j: int| 0 <= j < e - pos implies #[trigger] r[j] != '\n' by {
            assert(r[j] == chars@[pos + j]);
        }
        if e < chars@.len() {
            assert(r[e - pos] == chars@[e as int]);
        }
        lemma_line_len(r, e - pos);
    }
    e
}

/// End of the text of the line `chars[pos..e]`, `e` its end: a carriage
/// return right before the newline is not part of it.
fn content_end(chars: &Vec<char>, pos: usize, e: usize) -> (ce: usize)
    requires
        pos <= e <= chars@.len(),
    ensures
        pos <= ce <= e,
        ce == if e < chars@.len() && e > pos && chars@[e - 1] == '\r' {
            e - 1
        } else {
            e as int
        },
{
    if e < chars.len() && e > pos && chars[e - 1] == '\r' {
        e - 1
    } else {
        e
    }
}

/// The rules and the bits of the artifact `input`.
pub fn parse_artifact(input: &String) -> (r: Result<(Vec<(String, String)>, String), ProgramError>)
    ensures
        match (r, parse_spec(input@, Seq::empty())) {
            (Ok((rules, bits)), Some((t, b))) => table_of(rules@) == t && bits@ == b,
            (Err(e), None) => e == ProgramError::MalformedArtifact,
            _ => false,
        },
{
    let chars = chars_of(input);
    let ghost s = input@;
    let mut acc: Vec<(String, String)> = Vec::new();
    let mut pos: usize = 0;
    assert(s.skip(0) =~= s);
    assert(table_of(acc@) =~= Seq::<RuleSeq>::empty());
    while pos < chars.len()
        invariant
            chars@ == s,
            s == input@,
            pos <= chars@.len(),
            parse_spec(s, Seq::empty()) == parse_spec(s.skip(pos as int), table_of(acc@)),
        decreases chars.len() - pos,
    {
        let ghost sp = s.skip(pos as int);
        let e = line_end(&chars, pos);
        proof {
            lemma_line_len_bound(sp);
        }
        let ce = content_end(&chars, pos, e);
        assert(line_of(sp) =~= sp.take(ce - pos));
        if ce == pos {
            if e + 1 >= chars.len() {
                assert(after_line(sp) =~= Seq::<char>::empty());
                return Err(ProgramError::MalformedArtifact);
            }
            let e2 = line_end(&chars, e + 1);
            proof {
                lemma_line_len_bound(s.skip(e + 1));
            }
            let ce2 = content_end(&chars, e + 1, e2);
            let bits = string_of_range(&chars, e + 1, ce2);
            proof {
                assert(after_line(sp) =~= s.skip(e + 1));
                assert(line_of(s.skip(e + 1)) =~= s.skip(e + 1).take(ce2 - e - 1));
                assert(bits@ =~= s.skip(e + 1).take(ce2 - e - 1));
            }
            return Ok((acc, bits));
        }
        let ghost line = sp.take(ce - pos);
        let mut k: usize = pos;
        while k < ce && chars[k] != '='
            invariant
                chars@ == s,
                pos <= k <= ce,
                ce <= e,
                e <= chars@.len(),
                forall|j: int| pos <= j < k ==> #[trigger] chars@[j] != '=',
            decreases e - k,
        {
            k += 1;
        }
        proof {
            assert forall|j: int| 0 <= j < k - pos implies #[trigger] line[j] != '=' by {
                assert(line[j] == s[pos + j]);
            }
            if k < ce {
                assert(line[k - pos] == s[k as int]);
            }
            lemma_eq_pos(line, k - pos);
        }
        if k == ce {
            return Err(ProgramError::MalformedArtifact);
        }
        let pat = string_of_range(&chars, pos, k);
        let rep = string_of_range(&chars, k + 1, ce);
        proof {
            assert(pat@ =~= line.take(k - pos));
            assert(rep@ =~= line.skip(k - pos + 1));
        }
        let ghost a0 = table_of(acc@);
        let ghost entry = (pat@, rep@);
        acc.push((pat, rep));
        assert(table_of(acc@) =~= a0.push(entry));
        if e < chars.len() {
            assert(after_line(sp) =~= s.skip(e + 1));
            pos = e + 1;
        } else {
            assert(after_line(sp) =~= s.skip(e as int));
            pos = e;
        }
    }
    assert(s.skip(pos as int).len() == 0);
    Err(ProgramError::MalformedArtifact)
}

/// What decoding the artifact `s` gives: the bits evaluated against the
/// rules, built into a decompressing program.
pub open spec fn decompress_spec(s: Seq<char>) -> Result<Seq<char>, ProgramError> {
    match parse_spec(s, Seq::empty()) {
        None => Err(ProgramError::MalformedArtifact),
        Some((t, bits)) => match program_spec(Mode::Decompress, t) {
            Err(e) => Err(e),
            Ok(t2) => match eval_spec(t2, bits) {
                Some(o) => Ok(o),
                None => Err(ProgramError::NoMatchingRule),
            },
        },
    }
}

/// Decodes the artifact `input`.
pub fn decompress(input: &String) -> (r: Result<String, ProgramError>)
    ensures
        match (r, decompress_spec(input@)) {
            (Ok(o), Ok(d)) => o@ == d,
            (Err(e), Err(f)) => e == f,
            _ => false,
        },
{
    let (rules, bits) = match parse_artifact(input) {
        Ok(p) => p,
        Err(e) => {
            return Err(e);
        },
    };
    let prog = match Program::new(rules, Mode::Decompress) {
        Ok(p) => p,
        Err(e) => {
            return Err(e);
        },
    };
    prog.eval(bits)
}

/// The table with pattern and replacement of every rule swapped.
pub open spec fn swap(t: Seq<RuleSeq>) -> Seq<RuleSeq> {
    t.map_values(|r: RuleSeq| (r.1, r.0))
}

/// `x` does not hold the character `c`.
pub open spec fn lacks(x: Seq<char>, c: char) -> bool {
    forall|k: int| 0 <= k < x.len() ==> #[trigger] x[k] != c
}

/// A rule that renders as one artifact line and reads back as itself.
pub open spec fn line_safe(r: RuleSeq) -> bool {
    r.1.len() > 0 && lacks(r.1, '\n') && lacks(r.1, '=') && lacks(r.0, '\n') && lacks(r.0, '\r')
}

proof fn lemma_rules_text_front(t: Seq<RuleSeq>)
    requires
        t.len() > 0,
    ensures
        rules_text(t) == t[0].1 + seq!['='] + t[0].0 + seq!['\n'] + rules_text(t.drop_first()),
    decreases t.len(),
{
    if t.len() == 1 {
        assert(t.drop_first() =~= Seq::<RuleSeq>::empty());
        assert(t.drop_last() =~= Seq::<RuleSeq>::empty());
        assert(rules_text(t) =~= t[0].1 + seq!['='] + t[0].0 + seq!['\n'] + rules_text(t.drop_first()));
    } else {
        let d = t.drop_last();
        lemma_rules_text_front(d);
        assert(d.drop_first() =~= t.drop_first().drop_last());
        assert(t.drop_first().last() == t.last());
        assert(rules_text(t) =~= t[0].1 + seq!['='] + t[0].0 + seq!['\n'] + rules_text(t.drop_first()));
    }
}

proof fn lemma_parse_line(cw: Seq<char>, sym: Seq<char>, tail: Seq<char>, acc: Seq<RuleSeq>)
    requires
        line_safe((sym, cw)),
    ensures
        parse_spec(cw + seq!['='] + sym + seq!['\n'] + tail, acc) == parse_spec(
            tail,
            acc.push((cw, sym)),
        ),
{
    let line = cw + seq!['='] + sym;
    let x = line + seq!['\n'] + tail;
    assert(x =~= cw + seq!['='] + sym + seq!['\n'] + tail);
    let n = line.len() as int;
    assert forall|j: int| 0 <= j < n implies #[trigger] x[j] != '\n' by {
        assert(x[j] == line[j]);
        if j < cw.len() {
            assert(line[j] == cw[j]);
        } else if j > cw.len() {
            assert(line[j] == sym[j - cw.len() - 1]);
        }
    }
    assert(x[n] == '\n');
    lemma_line_len(x, n);
    assert(x[n - 1] != '\r') by {
        if sym.len() > 0 {
            assert(x[n - 1] == sym[sym.len() - 1]);
        } else {
            assert(x[n - 1] == line[n - 1]);
        }
    }
    assert(x.take(n) =~= line);
    assert(line_of(x) == line);
    assert(x.skip(n + 1) =~= tail);
    assert forall|j: int| 0 <= j < cw.len() implies #[trigger] line[j] != '=' by {
        assert(line[j] == cw[j]);
    }
    assert(line[cw.len() as int] == '=');
    lemma_eq_pos(line, cw.len() as int);
    assert(line.take(cw.len() as int) =~= cw);
    assert(line.skip((cw.len() + 1) as int) =~= sym);
}

proof fn lemma_parse_rules(t: Seq<RuleSeq>, tail: Seq<char>, acc: Seq<RuleSeq>)
    requires
        forall|i: int| 0 <= i < t.len() ==> line_safe(#[trigger] t[i]),
    ensures
        parse_spec(rules_text(t) + tail, acc) == parse_spec(tail, acc + swap(t)),
    decreases t.len(),
{
    if t.len() == 0 {
        assert(rules_text(t) + tail =~= tail);
        assert(acc + swap(t) =~= acc);
    } else {
        lemma_rules_text_front(t);
        let d = t.drop_first();
        assert forall|i: int| 0 <= i < d.len() implies line_safe(#[trigger] d[i]) by {
            assert(d[i] == t[i + 1]);
        }
        assert(line_safe(t[0]));
        let rest = rules_text(d) + tail;
        assert(rules_text(t) + tail =~= t[0].1 + seq!['='] + t[0].0 + seq!['\n'] + rest);
        lemma_parse_line(t[0].1, t[0].0, rest, acc);
        lemma_parse_rules(d, tail, acc.push((t[0].1, t[0].0)));
        assert(acc.push((t[0].1, t[0].0)) + swap(d) =~= acc + swap(t));
    }
}

/// Reading an artifact back: where every rule renders as one line and the
/// bits are a non-empty line, parsing the artifact gives the rules with
/// pattern and replacement swapped, and the bits.
pub proof fn lemma_parse_artifact(t: Seq<RuleSeq>, bits: Seq<char>)
    requires
        forall|i: int| 0 <= i < t.len() ==> line_safe(#[trigger] t[i]),
        bits.len() > 0,
        lacks(bits, '\n'),
    ensures
        parse_spec(artifact(bits, t), Seq::empty()) == Some((swap(t), bits)),
{
    let tail = seq!['\n'] + bits;
    assert(artifact(bits, t) =~= rules_text(t) + tail);
    lemma_parse_rules(t, tail, Seq::empty());
    assert(Seq::<RuleSeq>::empty() + swap(t) =~= swap(t));
    assert(tail[0] == '\n');
    lemma_line_len(tail, 0);
    assert(tail.skip(1) =~= bits);
    lemma_line_len(bits, bits.len() as int);
    assert(bits.take(bits.len() as int) =~= bits);
    assert(line_of(tail) =~= Seq::<char>::empty());
    assert(line_of(bits) == bits);
}

proof fn lemma_eval_output(t: Seq<RuleSeq>, input: Seq<char>)
    requires
        eval_spec(t, input) is Some,
        forall|k: int| 0 <= k < t.len() ==> all_bits(#[trigger] t[k].1) && t[k].1.len() > 0,
    ensures
        all_bits(eval_spec(t, input)->Some_0),
        input.len() > 0 ==> eval_spec(t, input)->Some_0.len() > 0,
    decreases input.len(),
{
    if input.len() > 0 {
        let k = choose|k: int| first_match(t, input, k);
        let rest = input.skip(t[k].0.len() as int);
        lemma_eval_output(t, rest);
        let r = eval_spec(t, rest)->Some_0;
        let o = t[k].1 + r;
        assert(all_bits(t[k].1));
        assert forall|m: int| 0 <= m < o.len() implies is_bit(#[trigger] o[m]) by {
            if m < t[k].1.len() {
                assert(o[m] == t[k].1[m]);
            } else {
                assert(o[m] == r[m - t[k].1.len()]);
            }
        }
    }
}

/// Decoding inverts encoding: a table whose codewords are non-empty,
/// binary and prefix-free, and whose symbols hold no binary digit, built
/// with pattern and replacement swapped into a decompressing program, keeps
/// every rule as it is, and decodes whatever the table encoded back to the
/// text that was encoded.
pub proof fn lemma_code_round_trip(t: Seq<RuleSeq>, input: Seq<char>)
    requires
        prefix_free(t),
        forall|k: int|
            0 <= k < t.len() ==> (#[trigger] t[k]).1.len() > 0 && all_bits(t[k].1) && !has_bit(
                t[k].0,
            ),
        eval_spec(t, input) is Some,
    ensures
        program_spec(Mode::Decompress, swap(t)) == Ok::<Seq<RuleSeq>, ProgramError>(
            sort_spec(Mode::Decompress, swap(t)),
        ),
        eval_spec(sort_spec(Mode::Decompress, swap(t)), eval_spec(t, input)->Some_0) == Some(
            input,
        ),
{
    let d0 = swap(t);
    let d = sort_spec(Mode::Decompress, d0);
    let nonpre = |a: RuleSeq, b: RuleSeq| !a.0.is_prefix_of(b.0);
    assert(pairwise(d0, nonpre)) by {
        assert forall|i: int, j: int|
            0 <= i < d0.len() && 0 <= j < d0.len() && i != j implies nonpre(d0[i], d0[j]) by {
            assert(d0[i] == (t[i].1, t[i].0));
            assert(d0[j] == (t[j].1, t[j].0));
            assert(!t[i].1.is_prefix_of(t[j].1));
        }
    }
    lemma_sort_keeps(Mode::Decompress, d0, nonpre);
    assert forall|i: int| 0 <= i < d.len() implies (#[trigger] d[i]).0.len() > 0 && !has_bit(d[i].1) by {
        assert(d.contains(d[i]));
        assert(d0.contains(d[i]));
        let m = choose|m: int| 0 <= m < d0.len() && d0[m] == d[i];
        assert(d0[m] == (t[m].1, t[m].0));
    }
    assert(distinct_patterns(d)) by {
        assert forall|i: int, j: int|
            0 <= i < d.len() && 0 <= j < d.len() && i != j implies d[i].0 != d[j].0 by {
            assert(nonpre(d[i], d[j]));
            if d[i].0 == d[j].0 {
                assert(d[i].0.take(d[i].0.len() as int) =~= d[i].0);
            }
        }
    }
    assert(terminal(d));
    lemma_dedup(d);
    lemma_normalize_idempotent(d);
    assert(patterns_prefix_free(d)) by {
        assert forall|i: int, j: int|
            0 <= i < d.len() && 0 <= j < d.len() && i != j implies !(#[trigger] d[i].0).is_prefix_of(
            #[trigger] d[j].0,
        ) by {
            assert(nonpre(d[i], d[j]));
        }
    }
    assert forall|k: int| 0 <= k < t.len() implies d.contains(((#[trigger] t[k]).1, t[k].0)) by {
        assert(d0[k] == (t[k].1, t[k].0));
        assert(d0.contains(d0[k]));
    }
    lemma_round_trip(t, d, input);
}

/// Round trip: a non-empty text without binary digits, newlines and
/// carriage returns, compressed with the code counted from it, decompresses
/// to itself.
pub proof fn lemma_word_round_trip(s: Seq<char>)
    requires
        s.len() > 0,
        forall|i: int|
            0 <= i < s.len() ==> !is_bit(#[trigger] s[i]) && s[i] != '\n' && s[i] != '\r',
    ensures
        compress_spec(s, word_code(s)) is Ok,
        decompress_spec(artifact(compress_spec(s, word_code(s))->Ok_0.0, compress_spec(s, word_code(s))->Ok_0.1))
            == Ok::<Seq<char>, ProgramError>(s),
{
    lemma_word_compresses(s);
    let t = word_table(s);
    let bits = eval_spec(t, s)->Some_0;
    lemma_eval_output(t, s);
    assert forall|i: int| 0 <= i < t.len() implies line_safe(#[trigger] t[i]) && !has_bit(t[i].0) by {
        let c = t[i].0[0];
        assert(s.contains(c));
        let m = choose|m: int| 0 <= m < s.len() && s[m] == c;
        assert(t[i].0.len() == 1);
        assert(all_bits(t[i].1));
        assert forall|k: int| 0 <= k < t[i].1.len() implies #[trigger] t[i].1[k] != '\n' && t[i].1[k] != '=' by {
            assert(is_bit(t[i].1[k]));
        }
        assert(t[i].0[0] == s[m]);
        assert(lacks(t[i].0, '\r'));
    }
    assert(lacks(bits, '\n')) by {
        assert forall|k: int| 0 <= k < bits.len() implies #[trigger] bits[k] != '\n' by {
            assert(is_bit(bits[k]));
        }
    }
    lemma_parse_artifact(t, bits);
    lemma_code_round_trip(t, s);
}

/// Round trip of the compressor: where compressing `init` with the code
/// table `table` succeeds and no pattern of `table` holds a binary digit,
/// the decompressing program built from the final table, pattern and
/// replacement swapped, keeps every rule and decodes the final bits to
/// `init`.
pub proof fn lemma_compress_round_trip(init: Seq<char>, table: Seq<RuleSeq>)
    requires
        compress_spec(init, table) is Ok,
        forall|k: int| 0 <= k < table.len() ==> !has_bit(#[trigger] table[k].0),
    ensures
        program_spec(Mode::Decompress, swap(compress_spec(init, table)->Ok_0.1)) == Ok::<
            Seq<RuleSeq>,
            ProgramError,
        >(sort_spec(Mode::Decompress, swap(compress_spec(init, table)->Ok_0.1))),
        eval_spec(
            sort_spec(Mode::Decompress, swap(compress_spec(init, table)->Ok_0.1)),
            compress_spec(init, table)->Ok_0.0,
        ) == Some(init),
{
    lemma_compress_table(init, table);
    let t3 = compress_spec(init, table)->Ok_0.1;
    assert(eval_spec(t3, init) == Some(compress_spec(init, table)->Ok_0.0));
    assert forall|k: int| 0 <= k < t3.len() implies (#[trigger] t3[k]).1.len() > 0 && all_bits(
        t3[k].1,
    ) && !has_bit(t3[k].0) by {
        assert(has_pattern(table, t3[k].0));
        let m = choose|m: int| 0 <= m < table.len() && (#[trigger] table[m]).0 == t3[k].0;
        assert(!has_bit(table[m].0));
    }
    lemma_code_round_trip(t3, init);
}

} // verus!
