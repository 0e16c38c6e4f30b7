use stembed::normalizer::{drop_flagged_chars, pad_flagged_chars, BertNormalizer, Normalizer};
use stembed::vocab::Vocab;
use stembed::wordpiece::{Tokenizer, WordPieceTokenizer};

const VOCAB: &str = "[PAD]\n[UNK]\nhello\nworld\n##s\n,\n!\nun\n##aff\n##able\n中\n文\nhe\n##llo";

fn bert_uncased() -> BertNormalizer {
    BertNormalizer::new(true, true, None, true)
}

fn tokenizer() -> WordPieceTokenizer<BertNormalizer> {
    let vocab = Vocab::from_newline_deliminated_string(VOCAB, 1);
    WordPieceTokenizer::new(vocab, 1, bert_uncased())
}

#[test]
fn normalize_cleans_strips_and_lowercases() {
    let n = bert_uncased();
    assert_eq!(n.normalize("Héllo\tWORLD"), "hello   world");
}

#[test]
fn normalize_removes_control_characters() {
    let n = bert_uncased();
    assert_eq!(n.normalize("a\u{0}b\u{FFFD}c\u{200B}d"), "abcd");
}

#[test]
fn normalize_pads_punctuation_and_spaces() {
    let n = bert_uncased();
    assert_eq!(n.normalize("Hello, worlds!"), "hello ,    worlds ! ");
}

#[test]
fn normalize_pads_chinese_characters() {
    let n = bert_uncased();
    assert_eq!(n.normalize("中文"), "   中      文   ");
}

#[test]
fn normalize_with_every_step_off_only_pads() {
    let n = BertNormalizer::new(false, false, Some(false), false);
    assert_eq!(n.normalize("A-b\tÉ"), "A - b \t É");
}

#[test]
fn normalize_keeps_accents_when_asked() {
    let n = BertNormalizer::new(true, true, Some(false), true);
    assert_eq!(n.normalize("É"), "é");
    let n = BertNormalizer::new(true, true, Some(true), false);
    assert_eq!(n.normalize("É"), "E");
}

#[test]
fn normalize_empty_text() {
    assert_eq!(bert_uncased().normalize(""), "");
}

#[test]
fn split_fn_is_unicode_whitespace() {
    let n = bert_uncased();
    assert!(n.split_fn(' '));
    assert!(n.split_fn('\u{3000}'));
    assert!(n.split_fn('\n'));
    assert!(!n.split_fn('a'));
    assert!(!n.split_fn(','));
}

#[test]
fn tokenize_sentence() {
    let t = tokenizer();
    assert_eq!(t.tokenize("Hello, worlds!"), vec![2, 5, 3, 4, 6]);
}

#[test]
fn tokenize_greedy_longest_match() {
    let t = tokenizer();
    assert_eq!(t.tokenize("unaffable"), vec![7, 8, 9]);
    assert_eq!(t.tokenize("hello"), vec![2]);
}

#[test]
fn tokenize_unknown_word_is_unk() {
    let t = tokenizer();
    assert_eq!(t.tokenize("xyz"), vec![1]);
    assert_eq!(t.tokenize("worldx"), vec![3, 1]);
    assert_eq!(t.tokenize("xhello"), vec![1]);
}

#[test]
fn tokenize_chinese() {
    let t = tokenizer();
    assert_eq!(t.tokenize("中文"), vec![10, 11]);
}

#[test]
fn tokenize_empty_and_blank_text() {
    let t = tokenizer();
    assert_eq!(t.tokenize(""), Vec::<usize>::new());
    assert_eq!(t.tokenize("  \t\n "), Vec::<usize>::new());
}

#[test]
fn tokenize_through_trait() {
    let t = tokenizer();
    assert_eq!(Tokenizer::tokenize(&t, "hello world"), vec![2, 3]);
}

#[test]
fn tokenize_uses_given_unk_id() {
    let vocab = Vocab::from_newline_deliminated_string("a\nb", 0);
    let t = WordPieceTokenizer::new(vocab, 42, bert_uncased());
    assert_eq!(t.tokenize("a c b"), vec![0, 42, 1]);
}


#[test]
fn pad_flagged_chars_pads_selected() {
    let s: Vec<char> = "a,b".chars().collect();
    assert_eq!(pad_flagged_chars(&s, &[false, true, false]), vec!['a', ' ', ',', ' ', 'b']);
    assert_eq!(pad_flagged_chars(&s, &[true, false, false]), vec![' ', 'a', ' ', ',', 'b']);
    assert_eq!(pad_flagged_chars(&[], &[]), Vec::<char>::new());
}

#[test]
fn drop_flagged_chars_keeps_unflagged() {
    let s: Vec<char> = "e\u{301}x".chars().collect();
    assert_eq!(drop_flagged_chars(&s, &[false, true, false]), vec!['e', 'x']);
    assert_eq!(drop_flagged_chars(&s, &[false, false, false]), s);
}

#[test]
fn tokenize_word_appends_pieces() {
    let t = tokenizer();
    let mut out = vec![99];
    t.tokenize_word(&['u', 'n', 'a', 'f', 'f'], &mut out);
    assert_eq!(out, vec![99, 7, 8]);
    t.tokenize_word(&[], &mut out);
    assert_eq!(out, vec![99, 7, 8]);
    t.tokenize_word(&['u', 'n', 'z'], &mut out);
    assert_eq!(out, vec![99, 7, 8, 7, 1]);
}

#[test]
fn tokenize_join_by_space_concatenates_ids() {
    let vocab = Vocab::from_newline_deliminated_string(VOCAB, 1);
    let tk = WordPieceTokenizer::new(vocab, 1, BertNormalizer::new(true, true, Some(false), false));
    let pairs = [("hello, worlds", "unaffable!"), ("", "hello"), ("中文", ""), ("he\tllo", "x\u{0}y")];
    for (a, b) in pairs {
        let joined = tk.tokenize(&format!("{a} {b}"));
        let mut expected = tk.tokenize(a);
        expected.extend(tk.tokenize(b));
        assert_eq!(joined, expected, "{:?} + {:?}", a, b);
    }
    assert_eq!(tk.tokenize("hello, worlds unaffable!"), vec![2, 5, 3, 4, 7, 8, 9, 6]);
}

#[test]
fn tokenize_uncased_join_by_space_on_examples() {
    let tk = tokenizer();
    let pairs = [("Hello, Worlds", "UNAFFABLE!"), ("héllo", "中文")];
    for (a, b) in pairs {
        let joined = tk.tokenize(&format!("{a} {b}"));
        let mut expected = tk.tokenize(a);
        expected.extend(tk.tokenize(b));
        assert_eq!(joined, expected, "{:?} + {:?}", a, b);
    }
}

#[test]
fn normalized_text_is_clean_without_lowercasing() {
    let n = BertNormalizer::new(true, true, Some(false), false);
    let out = n.normalize("a\u{0}b\tc\u{2003}d\u{FFFD}e\u{7F}f\u{85}g");
    assert_eq!(out, "ab   c   defg");
    assert!(out.chars().all(|c| c == ' ' || !(c.is_whitespace() || c.is_control() || c == '\u{FFFD}')));
}

#[test]
fn normalize_join_pads_the_joining_space() {
    let n = BertNormalizer::new(true, true, Some(false), false);
    let (a, b) = ("Hi,中", "Yo!");
    assert_eq!(n.normalize(&format!("{a} {b}")), format!("{}   {}", n.normalize(a), n.normalize(b)));
}
