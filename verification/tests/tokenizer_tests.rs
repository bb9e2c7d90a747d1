use rwkv7::tokenizer::TRIE_TOKENIZER;
use rwkv7::trie::TRIE;
use rwkv7::vocab::{parse_i64, parse_vocab_line};

fn entries(pairs: &[(i64, &[u8])]) -> Vec<(i64, Vec<u8>)> {
    pairs.iter().map(|(i, b)| (*i, b.to_vec())).collect()
}

/// A vocabulary with every single byte as a token (ids 1..=256) and a few
/// longer tokens.
fn byte_vocab() -> Vec<(i64, Vec<u8>)> {
    let mut v: Vec<(i64, Vec<u8>)> = (0u16..256).map(|b| (b as i64 + 1, vec![b as u8])).collect();
    v.push((300, b"he".to_vec()));
    v.push((301, b"hel".to_vec()));
    v.push((302, b"hello".to_vec()));
    v.push((303, b" world".to_vec()));
    v
}

#[test]
fn trie_new_is_empty() {
    let t = TRIE::new(Some(7));
    assert_eq!(t.ch, Some(7));
    assert_eq!(t.to.len(), 256);
    assert!(t.to.iter().all(|c| c.is_none()));
    assert!(t.values.is_empty());
}

#[test]
fn trie_add_then_find_longest() {
    let mut t = TRIE::new(None);
    let _ = t.add(b"ab", 0, Some((b"ab".to_vec(), 5)));
    let _ = t.add(b"abcd", 0, None);
    let (end, node, values) = t.find_longest(b"abcx", 0);
    assert_eq!(end, 2);
    assert_eq!(node.ch, Some(b'b'));
    assert_eq!(values, &vec![(b"ab".to_vec(), 5)]);
    let (end, _, values) = t.find_longest(b"abcde", 0);
    assert_eq!(end, 4);
    assert_eq!(values, &vec![(b"abcd".to_vec(), 0)]);
}

#[test]
fn trie_add_returns_end_node() {
    let mut t = TRIE::new(None);
    let node = t.add(b"xyz", 1, Some((b"q".to_vec(), 9)));
    assert_eq!(node.ch, Some(b'z'));
    assert_eq!(node.values, vec![(b"q".to_vec(), 9)]);
    let (end, _, _) = t.find_longest(b"yz", 0);
    assert_eq!(end, 2);
}

#[test]
fn trie_add_node_changed_through_returned_reference() {
    let mut t = TRIE::new(None);
    let _ = t.add(b"a", 0, Some((b"a".to_vec(), 1)));
    let node = t.add(b"ab", 0, Some((b"ab".to_vec(), 2)));
    node.values.clear();
    let (end, _, values) = t.find_longest(b"ab", 0);
    assert_eq!(end, 1);
    assert_eq!(values, &vec![(b"a".to_vec(), 1)]);
}

#[test]
fn trie_add_same_value_twice_keeps_one() {
    let mut t = TRIE::new(None);
    let _ = t.add(b"k", 0, Some((b"k".to_vec(), 1)));
    let _ = t.add(b"k", 0, Some((b"k".to_vec(), 1)));
    let _ = t.add(b"k", 0, Some((b"k".to_vec(), 2)));
    let (_, _, values) = t.find_longest(b"k", 0);
    assert_eq!(values.len(), 2);
}

#[test]
fn trie_find_longest_without_match() {
    let mut t = TRIE::new(None);
    let _ = t.add(b"abc", 0, None);
    let (end, node, values) = t.find_longest(b"abz", 0);
    assert_eq!(end, 0);
    assert_eq!(node.ch, None);
    assert!(values.is_empty());
    let (end, _, _) = t.find_longest(b"abc", 7);
    assert_eq!(end, 7);
}

#[test]
fn encode_takes_longest_tokens() {
    let t = TRIE_TOKENIZER::from_vocab(&byte_vocab());
    assert_eq!(t.encode_bytes(b"hello world"), vec![302, 303]);
    assert_eq!(t.encode_bytes(b"help"), vec![301, b'p' as i64 + 1]);
    assert_eq!(t.encode_bytes(b""), Vec::<i64>::new());
    assert_eq!(t.encode("he"), vec![300]);
}

#[test]
fn decode_concatenates_token_bytes() {
    let t = TRIE_TOKENIZER::from_vocab(&byte_vocab());
    assert_eq!(t.decode_bytes(&[302, 303]), b"hello world".to_vec());
    assert_eq!(t.decode_bytes(&[0]), b"<|endoftext|>".to_vec());
    assert_eq!(t.decode(&[302, 303]), "hello world");
}

#[test]
fn decode_invalid_utf8() {
    let t = TRIE_TOKENIZER::from_vocab(&byte_vocab());
    assert_eq!(t.decode(&[0xff + 1]), "<invalid utf8>");
    assert_eq!(t.decode(&[0xe6 + 1]), "<invalid utf8>");
}

#[test]
fn decode_inverts_encode() {
    let t = TRIE_TOKENIZER::from_vocab(&byte_vocab());
    for s in [&b"hello world"[..], b"", b"hhhelllo", b"\x00\xff world hello"] {
        let ids = t.encode_bytes(s);
        assert_eq!(t.decode_bytes(&ids), s.to_vec());
    }
    assert_eq!(t.decode(&t.encode("héllo wörld")), "héllo wörld");
}

#[test]
fn later_entries_replace_earlier_ones() {
    let t = TRIE_TOKENIZER::from_vocab(&entries(&[(1, b"a"), (2, b"a"), (0, b"b"), (3, b"b")]));
    assert_eq!(t.encode_bytes(b"ab"), vec![2, 3]);
    assert_eq!(t.decode_bytes(&[0, 1]), b"ba".to_vec());
}

#[test]
fn id_zero_is_no_token() {
    let t = TRIE_TOKENIZER::from_vocab(&entries(&[(0, b"z"), (1, b"y")]));
    assert_eq!(t.decode_bytes(&[0]), b"z".to_vec());
    assert_eq!(t.encode_bytes(b"yy"), vec![1, 1]);
}

#[test]
fn new_reads_vocabulary_lines() {
    let lines: Vec<String> = vec![
        "1 'a' 1".to_string(),
        "2 b'bc' 2".to_string(),
        "3 ' d e' 4".to_string(),
        "4 b\"x\" 1".to_string(),
    ];
    let t = TRIE_TOKENIZER::new(&lines);
    assert_eq!(t.decode_bytes(&[1, 2, 3, 4]), b"'a'bc' d e'x".to_vec());
    assert_eq!(t.encode_bytes(b"bcx"), vec![2, 4]);
}

#[test]
fn parse_vocab_line_cases() {
    assert_eq!(parse_vocab_line("12 'ab' 2"), Some((12, b"'ab'".to_vec())));
    assert_eq!(parse_vocab_line("12 b'ab' 2"), Some((12, b"ab".to_vec())));
    assert_eq!(parse_vocab_line("12 b\"ab\" 2"), Some((12, b"ab".to_vec())));
    assert_eq!(parse_vocab_line("7   \t ' q '  \u{3000} 9"), Some((7, b"' q '".to_vec())));
    assert_eq!(parse_vocab_line("-3 x 1"), Some((-3, b"x".to_vec())));
    assert_eq!(parse_vocab_line("5 1"), Some((5, Vec::new())));
    assert_eq!(parse_vocab_line("5 b' 1"), None);
    assert_eq!(parse_vocab_line("5 b'ab\u{e9} 1"), None);
    assert_eq!(parse_vocab_line("nospace"), None);
    assert_eq!(parse_vocab_line("x1 'a' 1"), None);
    assert_eq!(parse_vocab_line(" 'a' 1"), None);
}

#[test]
fn parse_i64_cases() {
    assert_eq!(parse_i64(b"0"), Some(0));
    assert_eq!(parse_i64(b"+17"), Some(17));
    assert_eq!(parse_i64(b"-17"), Some(-17));
    assert_eq!(parse_i64(b"007"), Some(7));
    assert_eq!(parse_i64(b"9223372036854775807"), Some(i64::MAX));
    assert_eq!(parse_i64(b"-9223372036854775808"), Some(i64::MIN));
    assert_eq!(parse_i64(b"9223372036854775808"), None);
    assert_eq!(parse_i64(b"-9223372036854775809"), None);
    assert_eq!(parse_i64(b""), None);
    assert_eq!(parse_i64(b"+"), None);
    assert_eq!(parse_i64(b"-"), None);
    assert_eq!(parse_i64(b"+-1"), None);
    assert_eq!(parse_i64(b"1a"), None);
    assert_eq!(parse_i64(b" 1"), None);
    for s in ["0", "42", "-42", "+42", "99999999999999999999", "", "-", "12x"] {
        assert_eq!(parse_i64(s.as_bytes()), s.parse::<i64>().ok());
    }
}

#[test]
fn can_encode_only_covered_text() {
    let t = TRIE_TOKENIZER::from_vocab(&entries(&[(1, b"ab"), (2, b"c")]));
    assert!(t.can_encode_bytes(b"abc"));
    assert!(t.can_encode_bytes(b""));
    assert!(!t.can_encode_bytes(b"a"));
    assert!(!t.can_encode_bytes(b"abx"));
    assert_eq!(t.encode_bytes(b"cab"), vec![2, 1]);
}

#[test]
fn knows_all_checks_every_id() {
    let t = TRIE_TOKENIZER::from_vocab(&entries(&[(1, b"a"), (2, b"b")]));
    assert!(t.knows_all(&[0, 1, 2]));
    assert!(t.knows_all(&[]));
    assert!(!t.knows_all(&[1, 3]));
    assert!(!t.knows_all(&[-1]));
}

#[test]
fn ambiguous_ids_break_the_roundtrip() {
    // Two token entries share id 1: the bytes of id 1 are those of the later
    // entry, so the earlier token does not decode to itself.
    let t = TRIE_TOKENIZER::from_vocab(&entries(&[(1, b"a"), (1, b"b")]));
    assert_eq!(t.encode_bytes(b"a"), vec![1]);
    assert_eq!(t.decode_bytes(&t.encode_bytes(b"a")), b"b".to_vec());
    assert_eq!(t.decode_bytes(&t.encode_bytes(b"b")), b"b".to_vec());
}

#[test]
fn decode_of_concatenation_is_concatenation() {
    let t = TRIE_TOKENIZER::from_vocab(&byte_vocab());
    let a = [302i64, 303];
    let b = [0i64, 301];
    let mut both = a.to_vec();
    both.extend_from_slice(&b);
    let mut expected = t.decode_bytes(&a);
    expected.extend(t.decode_bytes(&b));
    assert_eq!(t.decode_bytes(&both), expected);
}

#[test]
fn trie_add_keeps_bytes_of_existing_nodes() {
    let mut t = TRIE::new(None);
    let mut child = TRIE::new(Some(42));
    child.values.push((b"x".to_vec(), 1));
    child.values.push((b"x".to_vec(), 1));
    t.to[b'a' as usize] = Some(Box::new(child));
    let node = t.add(b"ab", 0, None);
    assert_eq!(node.ch, Some(b'b'));
    let _ = t.add(b"a", 0, Some((b"x".to_vec(), 1)));
    let (end, node, values) = t.find_longest(b"abc", 0);
    assert_eq!(end, 2);
    assert_eq!(node.ch, Some(b'b'));
    assert_eq!(values, &vec![(b"ab".to_vec(), 0)]);
    let (end, node, values) = t.find_longest(b"ax", 0);
    assert_eq!(end, 1);
    assert_eq!(node.ch, Some(42));
    assert_eq!(values.len(), 2);
}

#[test]
fn tokenizer_trie_holds_each_token() {
    let t = TRIE_TOKENIZER::from_vocab(&entries(&[(1, b"ab"), (2, b"a"), (0, b"z")]));
    let root = t.root();
    assert_eq!(root.ch, None);
    assert!(root.values.is_empty());
    let (end, _, values) = root.find_longest(b"ab", 0);
    assert_eq!(end, 2);
    assert_eq!(values, &vec![(b"ab".to_vec(), 1)]);
    let (end, _, values) = root.find_longest(b"az", 0);
    assert_eq!(end, 1);
    assert_eq!(values, &vec![(b"a".to_vec(), 2)]);
    let (end, _, _) = root.find_longest(b"z", 0);
    assert_eq!(end, 0);
}
