use ferrite::gguf::{parse, GGUF_MAGIC};
use ferrite::tokenizer::Tokenizer;

fn strings(items: &[&str]) -> Vec<String> {
    items.iter().map(|s| s.to_string()).collect()
}

fn numbered(items: &[&str]) -> Vec<(String, u32)> {
    items.iter().enumerate().map(|(i, s)| (s.to_string(), i as u32)).collect()
}

fn merge(left: &str, right: &str, priority: u32) -> (String, String, u32) {
    (left.to_string(), right.to_string(), priority)
}

#[test]
fn test_encode_decode_roundtrip() {
    let vocab = ["h", "e", "l", "o", "he", "hel", "hell", "hello"];
    let merges = vec![
        merge("h", "e", 0),
        merge("he", "l", 1),
        merge("hel", "l", 2),
        merge("hell", "o", 3),
    ];
    let tokenizer = Tokenizer::from_parts(strings(&vocab), numbered(&vocab), merges);

    let ids = tokenizer.encode("hello");
    assert_eq!(
        ids,
        vec![7u32],
        "expected 'hello' to encode to a single token [7]"
    );

    let decoded = tokenizer.decode(&ids);
    assert_eq!(decoded, "hello");
}

#[test]
fn test_empty_string() {
    let tokenizer = Tokenizer::from_parts(vec![], vec![], vec![]);
    assert_eq!(tokenizer.encode(""), Vec::<u32>::new());
    assert_eq!(tokenizer.decode(&[]), "");
}

#[test]
fn test_decode_replaces_glyph() {
    let vocab = ["\u{120}world"];
    let tokenizer = Tokenizer::from_parts(strings(&vocab), numbered(&vocab), vec![]);

    let decoded = tokenizer.decode(&[0]);
    assert_eq!(decoded, " world");
}

#[test]
fn spaces_are_encoded_by_their_glyph() {
    let vocab = ["x", "a", "\u{120}", "\u{120}a"];
    let merges = vec![merge("\u{120}", "a", 0)];
    let tokenizer = Tokenizer::from_parts(strings(&vocab), numbered(&vocab), merges);
    let ids = tokenizer.encode("a a");
    assert_eq!(ids, vec![1, 3]);
    assert_eq!(tokenizer.decode(&ids), "a a");
}

#[test]
fn unknown_characters_become_token_zero() {
    let vocab = ["x", "a"];
    let tokenizer = Tokenizer::from_parts(strings(&vocab), numbered(&vocab), vec![]);
    assert_eq!(tokenizer.encode("a?a"), vec![1, 0, 1]);
}

#[test]
fn of_the_pairs_the_first_of_the_lowest_priority_is_merged() {
    let vocab = ["a", "b", "c", "ab", "bc", "abc"];
    let merges = vec![merge("a", "b", 5), merge("b", "c", 1), merge("ab", "c", 0)];
    let tokenizer = Tokenizer::from_parts(strings(&vocab), numbered(&vocab), merges);
    // "bc" goes first, and then nothing is left for "a"
    assert_eq!(tokenizer.encode("abc"), vec![0, 4]);
    let merges = vec![merge("a", "a", 3)];
    let vocab = ["a", "aa"];
    let tokenizer = Tokenizer::from_parts(strings(&vocab), numbered(&vocab), merges);
    assert_eq!(tokenizer.encode("aaa"), vec![1, 0]);
    assert_eq!(tokenizer.encode("aaaa"), vec![1, 1]);
}

#[test]
fn merging_stops_where_a_merge_gives_no_token() {
    let vocab = ["a", "b", "c", "bc"];
    let merges = vec![merge("a", "b", 0), merge("b", "c", 1)];
    let tokenizer = Tokenizer::from_parts(strings(&vocab), numbered(&vocab), merges);
    // "ab" has the lowest priority but is no token, so "bc" is not merged either
    assert_eq!(tokenizer.encode("abc"), vec![0, 1, 2]);
    assert_eq!(tokenizer.encode("bc"), vec![3]);
}

#[test]
fn a_text_without_strings_for_its_tokens_is_not_encoded() {
    let tokenizer = Tokenizer::from_parts(vec![], vec![], vec![]);
    assert_eq!(tokenizer.try_encode("ab"), None);
    assert_eq!(tokenizer.try_encode("a"), Some(vec![0]));
    assert_eq!(tokenizer.try_encode(""), Some(vec![]));
}

#[test]
fn of_several_entries_the_last_counts() {
    let ids = vec![("a".to_string(), 0), ("a".to_string(), 1)];
    let tokenizer = Tokenizer::from_parts(strings(&["x", "a"]), ids, vec![]);
    assert_eq!(tokenizer.encode("a"), vec![1]);
}

#[test]
fn tokens_without_a_string_decode_to_nothing() {
    let vocab = ["a", "b"];
    let tokenizer = Tokenizer::from_parts(strings(&vocab), numbered(&vocab), vec![]);
    assert_eq!(tokenizer.decode(&[0, 9, 1]), "ab");
}

#[test]
fn tokens_can_be_decoded_piece_by_piece() {
    let vocab = ["a", "\u{120}b", "c"];
    let tokenizer = Tokenizer::from_parts(strings(&vocab), numbered(&vocab), vec![]);
    let whole = tokenizer.decode(&[0, 1, 2]);
    let pieces = tokenizer.decode(&[0]) + &tokenizer.decode(&[1, 2]);
    assert_eq!(whole, pieces);
    assert_eq!(whole, "a bc");
}

#[test]
fn a_text_has_no_more_tokens_than_characters() {
    let vocab = ["a", "b", "ab"];
    let merges = vec![merge("a", "b", 0)];
    let tokenizer = Tokenizer::from_parts(strings(&vocab), numbered(&vocab), merges);
    assert_eq!(tokenizer.encode("abab"), vec![2, 2]);
    assert!(tokenizer.encode("baba").len() <= 4);
}

fn put_str(out: &mut Vec<u8>, s: &str) {
    out.extend_from_slice(&(s.len() as u64).to_le_bytes());
    out.extend_from_slice(s.as_bytes());
}

#[test]
fn the_tokenizer_of_a_file() {
    let mut b = Vec::new();
    b.extend_from_slice(&GGUF_MAGIC.to_le_bytes());
    b.extend_from_slice(&3u32.to_le_bytes());
    b.extend_from_slice(&0u64.to_le_bytes());
    b.extend_from_slice(&2u64.to_le_bytes());
    for (key, items) in [
        ("tokenizer.ggml.tokens", vec!["a", "b", "\u{120}", "ab", "b\u{120}", "\u{120}a b"]),
        ("tokenizer.ggml.merges", vec!["a b", "nospace", "b \u{120}", "\u{120} a b"]),
    ] {
        put_str(&mut b, key);
        b.extend_from_slice(&9u32.to_le_bytes());
        b.extend_from_slice(&8u32.to_le_bytes());
        b.extend_from_slice(&(items.len() as u64).to_le_bytes());
        for s in items {
            put_str(&mut b, s);
        }
    }
    let tokenizer = Tokenizer::from_gguf(&parse(&b).unwrap());
    assert_eq!(tokenizer.encode("ab"), vec![3]);
    assert_eq!(tokenizer.encode("b b"), vec![4, 1]);
    assert_eq!(tokenizer.decode(&[3, 2, 1]), "ab b");
    assert_eq!(tokenizer.decode(&[5]), " a b");
}

#[test]
fn a_file_without_a_vocabulary_gives_an_empty_tokenizer() {
    let mut b = Vec::new();
    b.extend_from_slice(&GGUF_MAGIC.to_le_bytes());
    b.extend_from_slice(&3u32.to_le_bytes());
    b.extend_from_slice(&[0; 16]);
    let tokenizer = Tokenizer::from_gguf(&parse(&b).unwrap());
    assert_eq!(tokenizer.encode(""), Vec::<u32>::new());
    assert_eq!(tokenizer.decode(&[0, 1]), "");
}

/// A tokenizer of tokens with their types, and of merges.
fn typed(tokens: &[(&str, i32)], merges: &[&str]) -> Tokenizer {
    let mut b = Vec::new();
    b.extend_from_slice(&GGUF_MAGIC.to_le_bytes());
    b.extend_from_slice(&3u32.to_le_bytes());
    b.extend_from_slice(&0u64.to_le_bytes());
    b.extend_from_slice(&3u64.to_le_bytes());
    let names: Vec<&str> = tokens.iter().map(|t| t.0).collect();
    for (key, items) in
        [("tokenizer.ggml.tokens", names.as_slice()), ("tokenizer.ggml.merges", merges)]
    {
        put_str(&mut b, key);
        b.extend_from_slice(&9u32.to_le_bytes());
        b.extend_from_slice(&8u32.to_le_bytes());
        b.extend_from_slice(&(items.len() as u64).to_le_bytes());
        for s in items {
            put_str(&mut b, s);
        }
    }
    put_str(&mut b, "tokenizer.ggml.token_type");
    b.extend_from_slice(&9u32.to_le_bytes());
    b.extend_from_slice(&5u32.to_le_bytes());
    b.extend_from_slice(&(tokens.len() as u64).to_le_bytes());
    for (_, kind) in tokens {
        b.extend_from_slice(&kind.to_le_bytes());
    }
    Tokenizer::from_gguf(&parse(&b).unwrap())
}

#[test]
fn a_special_string_is_one_token() {
    let tokenizer = typed(&[("a", 1), ("<|im_end|>", 3), ("<tool>", 4)], &[]);
    assert_eq!(tokenizer.encode("<|im_end|>"), vec![1]);
    assert_eq!(tokenizer.encode("<tool>"), vec![2]);
    assert_eq!(tokenizer.encode("<|im_end|><|im_end|>"), vec![1, 1]);
    assert_eq!(tokenizer.decode(&tokenizer.encode("<|im_end|>a<tool>")), "<|im_end|>a<tool>");
}

#[test]
fn text_is_cut_at_special_strings() {
    let tokens =
        [("a", 1), ("b", 1), ("\u{120}", 1), ("ab", 1), ("b\u{120}", 1), ("<|im_start|>", 3)];
    let tokenizer = typed(&tokens, &["a b", "b \u{120}"]);
    assert_eq!(tokenizer.encode("ab<|im_start|>b a"), vec![3, 5, 4, 0]);
    // no merge reaches across a special string
    assert_eq!(tokenizer.encode("a<|im_start|>b"), vec![0, 5, 1]);
    assert_eq!(tokenizer.decode(&[3, 5, 4, 0]), "ab<|im_start|>b a");
    // part of a special string is ordinary text
    assert_eq!(tokenizer.encode("<|im_start"), vec![0; 10]);
}

#[test]
fn of_the_special_strings_the_leftmost_and_longest_counts() {
    let tokens = [("a", 1), ("b", 1), ("c", 1), ("ab", 3), ("abc", 3), ("bcc", 4)];
    let tokenizer = typed(&tokens, &[]);
    // longest of those at the same place
    assert_eq!(tokenizer.encode("abc"), vec![4]);
    assert_eq!(tokenizer.encode("abb"), vec![3, 1]);
    // the leftmost, though another starts inside it
    assert_eq!(tokenizer.encode("aabcc"), vec![0, 4, 2]);
    assert_eq!(tokenizer.encode("cbcca"), vec![2, 5, 0]);
}

#[test]
fn special_strings_may_hold_spaces() {
    let tokenizer = typed(&[("a", 1), ("\u{120}", 1), ("< x >", 4)], &[]);
    assert_eq!(tokenizer.encode("a < x > a"), vec![0, 1, 2, 1, 0]);
    assert_eq!(tokenizer.decode(&[0, 1, 2, 1, 0]), "a < x > a");
}

#[test]
fn tokens_of_other_types_are_not_special() {
    for kind in [0, 1, 2, 5, 6] {
        let tokenizer = typed(&[("x", 1), ("a", 1), ("b", 1), ("ab", kind)], &[]);
        assert_eq!(tokenizer.encode("ab"), vec![1, 2]);
    }
    // an empty string is never found
    let tokenizer = typed(&[("a", 1), ("", 3)], &[]);
    assert_eq!(tokenizer.encode("aa"), vec![0, 0]);
}

#[test]
fn of_two_special_tokens_with_one_string_the_last_counts() {
    let tokenizer = typed(&[("<s>", 3), ("a", 1), ("<s>", 3)], &[]);
    assert_eq!(tokenizer.encode("<s>a"), vec![2, 1]);
}

#[test]
fn several_tokens_without_a_string_are_not_merged() {
    let ids = vec![("a".to_string(), 7)];
    let tokenizer = Tokenizer::from_parts(strings(&["x"]), ids, vec![]);
    assert_eq!(tokenizer.try_encode("a"), Some(vec![7]));
    assert_eq!(tokenizer.try_encode("aa"), None);
    let tokenizer = typed(&[("<s>", 3), ("a", 1)], &[]);
    assert_eq!(tokenizer.try_encode("a<s>a"), Some(vec![1, 0, 1]));
}
