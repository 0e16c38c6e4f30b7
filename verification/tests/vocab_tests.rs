use stembed::token_map::TokenMap;
use stembed::vocab::Vocab;

fn chars(s: &str) -> Vec<char> {
    s.chars().collect()
}

#[test]
fn vocab_ids_count_non_empty_lines() {
    let vocab = Vocab::from_newline_deliminated_string("hello\nworld\n\nfoo\n", 1);
    assert_eq!(vocab.get_token_to_id("hello"), Some(0));
    assert_eq!(vocab.get_token_to_id("world"), Some(1));
    assert_eq!(vocab.get_token_to_id("foo"), Some(2));
    assert_eq!(vocab.get_token_to_id(""), None);
    assert_eq!(vocab.get_token_to_id("bar"), None);
    assert_eq!(vocab.vocab.len(), 3);
    assert_eq!(vocab.unk_token_id, 1);
}

#[test]
fn vocab_repeated_line_keeps_last_id() {
    let vocab = Vocab::from_newline_deliminated_string("a\nb\na", 0);
    assert_eq!(vocab.get_token_to_id("a"), Some(2));
    assert_eq!(vocab.get_token_to_id("b"), Some(1));
    assert_eq!(vocab.vocab.len(), 2);
    assert_eq!(vocab.get_id_to_token(0), None);
}

#[test]
fn vocab_empty_text_is_empty() {
    let vocab = Vocab::from_newline_deliminated_string("", 0);
    assert_eq!(vocab.vocab.len(), 0);
    let vocab = Vocab::from_newline_deliminated_string("\n\n\n", 0);
    assert_eq!(vocab.vocab.len(), 0);
}

#[test]
fn vocab_id_to_token_inverts_token_to_id() {
    let vocab = Vocab::from_newline_deliminated_string("[PAD]\n[UNK]\nthe\n##s\nüber\n中", 1);
    for (i, t) in ["[PAD]", "[UNK]", "the", "##s", "über", "中"].iter().enumerate() {
        assert_eq!(vocab.get_token_to_id(t), Some(i));
        assert_eq!(vocab.get_id_to_token(i), Some(t.to_string()));
    }
    assert_eq!(vocab.get_id_to_token(6), None);
}

#[test]
fn vocab_keeps_carriage_returns() {
    let vocab = Vocab::from_newline_deliminated_string("a\r\nb", 0);
    assert_eq!(vocab.get_token_to_id("a\r"), Some(0));
    assert_eq!(vocab.get_token_to_id("a"), None);
    assert_eq!(vocab.get_token_to_id("b"), Some(1));
}

#[test]
fn vocab_new_keeps_map_and_unk() {
    let mut map = TokenMap::new();
    map.insert(chars("x"), 5);
    let vocab = Vocab::new(map, 9);
    assert_eq!(vocab.get_token_to_id("x"), Some(5));
    assert_eq!(vocab.get_id_to_token(5), Some("x".to_string()));
    assert_eq!(vocab.unk_token_id, 9);
}

#[test]
fn token_map_insert_replaces() {
    let mut map = TokenMap::with_capacity(4);
    assert_eq!(map.len(), 0);
    map.insert(chars("abc"), 1);
    map.insert(chars("abd"), 2);
    map.insert(chars("abc"), 3);
    assert_eq!(map.len(), 2);
    assert_eq!(map.get(&chars("abc")), Some(3));
    assert_eq!(map.get(&chars("abd")), Some(2));
    assert_eq!(map.get(&chars("ab")), None);
    assert_eq!(map.key_with_value(2), Some(chars("abd")));
    assert_eq!(map.key_with_value(1), None);
}

#[test]
fn token_map_many_keys() {
    let mut map = TokenMap::with_capacity(2);
    for i in 0..1000usize {
        map.insert(chars(&format!("tok{}", i)), i);
    }
    assert_eq!(map.len(), 1000);
    for i in 0..1000usize {
        assert_eq!(map.get(&chars(&format!("tok{}", i))), Some(i));
    }
    let keys = map.keys_by_id();
    assert_eq!(keys.len(), 1000);
    for i in 0..1000usize {
        assert_eq!(keys[i], chars(&format!("tok{}", i)));
    }
}

#[test]
fn hash_chars_exact_values() {
    assert_eq!(stembed::token_map::hash_chars(&[]), 0);
    assert_eq!(stembed::token_map::hash_chars(&['a']), 97);
    assert_eq!(stembed::token_map::hash_chars(&['a', 'b']), 97 * 31 + 98);
}
