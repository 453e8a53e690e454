use rulecodec::compression::{compress, compress_word, display, count_occ, eval_huffman_tree, hash_to_huffman_tree};
use rulecodec::decode::{decompress, parse_artifact};
use rulecodec::program::ProgramError;

#[test]
fn single_symbol_word() {
    assert_eq!(compress_word("aaaa".to_string()), Ok("0=a\n\n0000".to_string()));
}

#[test]
fn known_distribution_round_trips() {
    let text = "bcaadddccacacac".to_string();
    let art = compress_word(text.clone()).unwrap();
    assert_eq!(decompress(&art), Ok(text));
}

#[test]
fn second_pass_reweights_codes() {
    let text = "bcaadddccacacac".to_string();
    let table = eval_huffman_tree(hash_to_huffman_tree(count_occ(&text)).unwrap());
    let c = compress(text.clone(), table).unwrap();
    let rules: Vec<(String, String)> = c.code().rules().clone();
    let expect: Vec<(String, String)> = [("c", "1"), ("a", "01"), ("b", "000"), ("d", "001")]
        .iter()
        .map(|(a, b)| (a.to_string(), b.to_string()))
        .collect();
    assert_eq!(rules, expect);
    assert_eq!(c.compressed(), "0001010100100100111011011011");
}

#[test]
fn display_renders_artifact() {
    let table = vec![("a".to_string(), "0".to_string()), ("b".to_string(), "1".to_string())];
    assert_eq!(display("ab".to_string(), table), Ok("0=a\n1=b\n\n01".to_string()));
}

#[test]
fn round_trip_several_words() {
    for w in ["hello world", "abracadabra", "z", "mississippi"] {
        let art = compress_word(w.to_string()).unwrap();
        assert_eq!(decompress(&art), Ok(w.to_string()));
    }
}

#[test]
fn empty_word_is_rejected() {
    assert_eq!(compress_word(String::new()), Err(ProgramError::EmptyWeightTable));
}

#[test]
fn compress_fails_on_unknown_symbol() {
    let table = vec![("a".to_string(), "0".to_string())];
    assert!(matches!(compress("ab".to_string(), table), Err(ProgramError::NoMatchingRule)));
}

#[test]
fn artifact_without_blank_line_is_malformed() {
    assert_eq!(decompress(&"0=a".to_string()), Err(ProgramError::MalformedArtifact));
    assert_eq!(decompress(&"0=a\n\n".to_string()), Err(ProgramError::MalformedArtifact));
}

#[test]
fn rule_line_without_equals_is_malformed() {
    assert_eq!(decompress(&"0a\n\n0".to_string()), Err(ProgramError::MalformedArtifact));
}

#[test]
fn parse_splits_at_first_equals() {
    let (rules, bits) = parse_artifact(&"10=a=b\n0=c\n\n100\nrest".to_string()).unwrap();
    assert_eq!(
        rules,
        vec![("10".to_string(), "a=b".to_string()), ("0".to_string(), "c".to_string())]
    );
    assert_eq!(bits, "100");
}

#[test]
fn text_with_binary_digits_does_not_round_trip() {
    let art = compress_word("0a".to_string()).unwrap();
    assert_eq!(art, "0=0\n1=a\n\n01");
    assert_eq!(decompress(&art), Err(ProgramError::UnresolvedRecursiveReplacement));
}

#[test]
fn crlf_artifact_decodes() {
    let art = "0=a\r\n1=b\r\n\r\n0110\r\n".to_string();
    assert_eq!(decompress(&art), Ok("abba".to_string()));
}

#[test]
fn second_pass_can_get_stuck() {
    let table = vec![
        ("ab".to_string(), "0".to_string()),
        ("a".to_string(), "10".to_string()),
        ("b".to_string(), "11".to_string()),
    ];
    assert!(matches!(compress("aab".to_string(), table), Err(ProgramError::NoMatchingRule)));
}
