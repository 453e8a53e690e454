use rulecodec::program::{Mode, Program, ProgramError};

fn rules(v: &[(&str, &str)]) -> Vec<(String, String)> {
    v.iter().map(|(a, b)| (a.to_string(), b.to_string())).collect()
}

#[test]
fn basics() {
    let v = vec![
        ('0'.to_string(), "abra".to_string()),
        ("1".to_string(), "cad".to_string()),
    ];
    let expected = vec![
        ("1".to_string(), "cad".to_string()),
        ('0'.to_string(), "abra".to_string()),
    ];

    let p1 = Program::new(v, Mode::Decompress).unwrap();
    let p2 = Program::new(expected, Mode::Decompress).unwrap();

    assert_eq!(p1.rules(), p2.rules());
}

#[test]
fn decompress_sorts_longest_pattern_first() {
    let p = Program::new(rules(&[("0", "abra"), ("00", "cad")]), Mode::Decompress).unwrap();
    assert_eq!(p.rules(), &rules(&[("00", "cad"), ("0", "abra")]));
    assert_eq!(p.eval("000".to_string()), Ok("cadabra".to_string()));
}

#[test]
fn compress_sorts_shortest_code_first() {
    let p = Program::new(rules(&[("a", "10"), ("b", "0"), ("c", "11")]), Mode::Compress).unwrap();
    assert_eq!(p.rules(), &rules(&[("b", "0"), ("a", "10"), ("c", "11")]));
    assert_eq!(p.mode(), Mode::Compress);
    assert_eq!(p.eval("abc".to_string()), Ok("10011".to_string()));
}

#[test]
fn eval_of_empty_input_is_empty() {
    let p = Program::new(rules(&[("a", "0")]), Mode::Compress).unwrap();
    assert_eq!(p.eval(String::new()), Ok(String::new()));
}

#[test]
fn eval_fails_without_matching_rule() {
    let p = Program::new(rules(&[("a", "0")]), Mode::Compress).unwrap();
    assert_eq!(p.eval("ab".to_string()), Err(ProgramError::NoMatchingRule));
}

#[test]
fn normalization_resolves_nested_codewords() {
    let p = Program::new(rules(&[("0", "a"), ("1", "0b")]), Mode::Decompress).unwrap();
    assert_eq!(p.rules(), &rules(&[("1", "ab"), ("0", "a")]));
    assert_eq!(p.eval("10".to_string()), Ok("aba".to_string()));
}

#[test]
fn normalization_updates_existing_rule_in_place() {
    let p = Program::new(rules(&[("1", "0"), ("0", "z"), ("11", "1y")]), Mode::Decompress).unwrap();
    assert_eq!(p.rules(), &rules(&[("11", "zy"), ("1", "z"), ("0", "z")]));
}

#[test]
fn normalization_inserts_resolved_run() {
    let p = Program::new(rules(&[("0", "1"), ("1", "q"), ("2", "00")]), Mode::Decompress).unwrap();
    assert_eq!(
        p.rules(),
        &rules(&[("00", "qq"), ("2", "qq"), ("1", "q"), ("0", "q")])
    );
}

#[test]
fn cyclic_rules_are_reported() {
    let r = Program::new(rules(&[("0", "00")]), Mode::Decompress);
    assert!(matches!(r, Err(ProgramError::UnresolvedRecursiveReplacement)));
}

#[test]
fn unresolvable_run_is_reported() {
    let r = Program::new(rules(&[("0", "a1")]), Mode::Decompress);
    assert!(matches!(r, Err(ProgramError::NoMatchingRule)));
}

#[test]
fn renormalizing_changes_nothing() {
    let p = Program::new(rules(&[("0", "a"), ("1", "0b"), ("01", "1c")]), Mode::Decompress).unwrap();
    let again = Program::new(p.rules().clone(), Mode::Decompress).unwrap();
    assert_eq!(p.rules(), again.rules());
    for (_, rep) in p.rules() {
        assert!(!rep.contains('0') && !rep.contains('1'));
    }
}

#[test]
fn repeated_pattern_keeps_first_rule() {
    let p = Program::new(rules(&[("0", "a"), ("0", "b")]), Mode::Decompress).unwrap();
    assert_eq!(p.rules(), &rules(&[("0", "a")]));
    assert_eq!(p.eval("0".to_string()), Ok("a".to_string()));
}

#[test]
fn repeated_pattern_with_digit_is_dropped() {
    let p = Program::new(rules(&[("1", "a"), ("0", "b"), ("0", "1")]), Mode::Decompress).unwrap();
    assert_eq!(p.rules(), &rules(&[("1", "a"), ("0", "b")]));
}

#[test]
fn renormalizing_repeated_patterns_changes_nothing() {
    let p = Program::new(rules(&[("0", "a"), ("0", "b")]), Mode::Decompress).unwrap();
    let again = Program::new(p.rules().clone(), Mode::Decompress).unwrap();
    assert_eq!(p.rules(), again.rules());
}
