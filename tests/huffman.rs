use rulecodec::compression::{count_occ, eval_huffman_tree, hash_to_huffman_tree};

fn weight_of(table: &[(String, u64)], sym: &str) -> Option<u64> {
    table.iter().find(|(s, _)| s == sym).map(|(_, w)| *w)
}

fn code_of(table: &[(String, String)], sym: &str) -> Option<String> {
    table.iter().find(|(s, _)| s == sym).map(|(_, c)| c.clone())
}

#[test]
fn count() {
    let hash = count_occ(&String::from("bcaadddccacacac"));
    assert_eq!(weight_of(&hash, "a"), Some(5));
    assert_eq!(weight_of(&hash, "b"), Some(1));
    assert_eq!(weight_of(&hash, "c"), Some(6));
    assert_eq!(weight_of(&hash, "d"), Some(3));

    assert_eq!(weight_of(&hash, "z"), None);
}

#[test]
fn huffman() {
    let node = hash_to_huffman_tree(count_occ(&String::from("bcaadddccacacac"))).unwrap();
    let right = node.right.unwrap();
    let right_left = right.left.unwrap();

    assert_eq!(node.left.unwrap().leaf.unwrap(), "c".to_string());
    assert_eq!(right.right.unwrap().leaf.unwrap(), "a".to_string());
    assert_eq!(right_left.left.unwrap().leaf.unwrap(), "b".to_string());
    assert_eq!(right_left.right.unwrap().leaf.unwrap(), "d".to_string());
}

#[test]
fn eval_huffman() {
    let node = hash_to_huffman_tree(count_occ(&String::from("bcaadddccacacac"))).unwrap();

    let hash = eval_huffman_tree(node);

    assert_eq!(code_of(&hash, "a"), Some(String::from("11")));
    assert_eq!(code_of(&hash, "b"), Some(String::from("100")));
    assert_eq!(code_of(&hash, "c"), Some(String::from("0")));
    assert_eq!(code_of(&hash, "d"), Some(String::from("101")));
}

#[test]
fn count_caps_weights() {
    let word = "x".repeat(45) + "y";
    let hash = count_occ(&word);
    assert_eq!(hash, vec![("x".to_string(), 30), ("y".to_string(), 1)]);
}

#[test]
fn count_keeps_first_appearance_order() {
    let hash = count_occ(&String::from("cab"));
    let syms: Vec<&str> = hash.iter().map(|(s, _)| s.as_str()).collect();
    assert_eq!(syms, vec!["c", "a", "b"]);
}

#[test]
fn single_symbol_gets_zero() {
    let node = hash_to_huffman_tree(count_occ(&String::from("aaaa"))).unwrap();
    assert_eq!(node.leaf.as_deref(), Some("a"));
    let table = eval_huffman_tree(node);
    assert_eq!(table, vec![("a".to_string(), "0".to_string())]);
}

#[test]
fn empty_weight_table_is_rejected() {
    let r = hash_to_huffman_tree(Vec::new());
    assert!(matches!(r, Err(rulecodec::program::ProgramError::EmptyWeightTable)));
}

#[test]
fn equal_weights_pop_in_insertion_order() {
    let w = vec![
        ("p".to_string(), 2u64),
        ("q".to_string(), 2u64),
        ("r".to_string(), 2u64),
    ];
    let table = eval_huffman_tree(hash_to_huffman_tree(w).unwrap());
    assert_eq!(code_of(&table, "r"), Some("0".to_string()));
    assert_eq!(code_of(&table, "p"), Some("10".to_string()));
    assert_eq!(code_of(&table, "q"), Some("11".to_string()));
}

#[test]
fn built_codes_are_prefix_free() {
    let node = hash_to_huffman_tree(count_occ(&String::from("the quick brown fox"))).unwrap();
    let table = eval_huffman_tree(node);
    for (i, (_, a)) in table.iter().enumerate() {
        for (j, (_, b)) in table.iter().enumerate() {
            if i != j {
                assert!(!b.starts_with(a.as_str()), "{a} prefixes {b}");
            }
        }
    }
}

#[test]
fn merged_weight_is_sum_of_children() {
    let w = vec![("a".to_string(), 7u64), ("b".to_string(), 5u64)];
    let node = hash_to_huffman_tree(w).unwrap();
    assert_eq!(node.left.unwrap().leaf.unwrap(), "b");
    assert_eq!(node.right.unwrap().leaf.unwrap(), "a");
}
