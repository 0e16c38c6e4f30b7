use stembed::huggingface::{select_sentence_transformer, HFModule};
use stembed::model_binary::StaticEmbeddingModelBuilder;
use stembed::normalizer::{BertNormalizer, Normalizer};
use stembed::text::{chars_to_string, push_bytes, str_to_chars};
use stembed::token_map::{chars_equal, copy_chars, TokenMap};
use stembed::vocab::Vocab;
use stembed::weights::WeightsDType;

fn module(t: &str, p: &str) -> HFModule {
    HFModule { module_type: t.to_string(), path: p.to_string() }
}

#[test]
fn select_single_sentence_transformer() {
    let mods = vec![
        module("sentence_transformers.models.Normalize", "1_Normalize"),
        module("sentence_transformer.SentenceTransformer", "0_Static"),
    ];
    assert_eq!(select_sentence_transformer(&mods), Ok(1));
}

#[test]
fn select_sentence_transformer_counts_when_not_one() {
    assert_eq!(select_sentence_transformer(&[]), Err(0));
    let mods = vec![
        module("sentence_transformer.SentenceTransformer", "a"),
        module("sentence_transformer.SentenceTransformer", "b"),
    ];
    assert_eq!(select_sentence_transformer(&mods), Err(2));
    let mods = vec![module("sentence_transformer.SentenceTransformerX", "a")];
    assert_eq!(select_sentence_transformer(&mods), Err(0));
}

#[test]
fn text_conversions() {
    let s = "añ中!";
    let cs = str_to_chars(s);
    assert_eq!(cs, vec!['a', 'ñ', '中', '!']);
    assert_eq!(chars_to_string(&cs), s.to_string());
    assert_eq!(chars_to_string(&[]), String::new());
    let mut out = vec![1u8];
    push_bytes(&mut out, &[2, 3]);
    assert_eq!(out, vec![1, 2, 3]);
}

#[test]
fn char_slice_helpers() {
    assert!(chars_equal(&['a', 'b'], &['a', 'b']));
    assert!(!chars_equal(&['a', 'b'], &['a', 'c']));
    assert!(!chars_equal(&['a'], &['a', 'b']));
    assert_eq!(copy_chars(&['x', 'y']), vec!['x', 'y']);
}

#[test]
fn dense_ids_detection() {
    let mut m = TokenMap::new();
    assert!(m.has_dense_ids());
    m.insert(vec!['a'], 1);
    assert!(!m.has_dense_ids());
    m.insert(vec!['b'], 0);
    assert!(m.has_dense_ids());
    m.insert(vec!['c'], 0);
    assert!(!m.has_dense_ids());
    m.insert(vec!['c'], 2);
    assert!(m.has_dense_ids());
}

#[test]
fn keys_fit_utf8_limit() {
    let mut m = TokenMap::new();
    m.insert(vec!['中'], 0);
    assert!(m.keys_fit_utf8(3));
    assert!(!m.keys_fit_utf8(2));
}

#[test]
fn can_serialize_checks() {
    let vocab = Vocab::from_newline_deliminated_string("a\nb", 0);
    let ok = StaticEmbeddingModelBuilder::new(3, vocab.clone(), vec![0u8; 12].into_boxed_slice(), WeightsDType::F16);
    assert!(ok.can_serialize());
    let short = StaticEmbeddingModelBuilder::new(3, vocab.clone(), vec![0u8; 11].into_boxed_slice(), WeightsDType::F16);
    assert!(!short.can_serialize());
    let f32w = StaticEmbeddingModelBuilder::new(3, vocab, vec![0u8; 12].into_boxed_slice(), WeightsDType::F32);
    assert!(!f32w.can_serialize());
    let gaps = Vocab::from_newline_deliminated_string("a\nb\na", 0);
    let b = StaticEmbeddingModelBuilder::new(1, gaps, vec![0u8; 4].into_boxed_slice(), WeightsDType::F16);
    assert!(!b.can_serialize());
    let big_dim = StaticEmbeddingModelBuilder::new(
        (u32::MAX as usize) + 1,
        Vocab::from_newline_deliminated_string("", 0),
        Vec::new().into_boxed_slice(),
        WeightsDType::F16,
    );
    assert!(!big_dim.can_serialize());
}

#[test]
fn white_space_matches_std_on_every_char() {
    for v in 0u32..=0x10FFFF {
        if let Some(c) = char::from_u32(v) {
            assert_eq!(stembed::unicode::is_white_space(c), c.is_whitespace(), "U+{:04X}", v);
        }
    }
}

#[test]
fn ascii_categories_in_normalization() {
    let punct = "!\"#%&'()*,-./:;?@[\\]_{}";
    let cleaning = BertNormalizer::new(true, false, Some(false), false);
    let stripping = BertNormalizer::new(false, false, Some(true), false);
    for v in 0u32..0x80 {
        let c = char::from_u32(v).unwrap();
        let text = c.to_string();
        let other = v < 0x20 || v == 0x7F;
        let padded = |c: char| if punct.contains(c) || c.is_ascii_whitespace() { format!(" {c} ") } else { c.to_string() };
        let cleaned = if v == 0 || (other && !matches!(c, '\t' | '\n' | '\r')) {
            String::new()
        } else if matches!(c, '\t' | '\n' | '\r' | ' ') {
            "   ".to_string()
        } else {
            padded(c)
        };
        assert_eq!(cleaning.normalize(&text), cleaned, "U+{:04X}", v);
        assert_eq!(stripping.normalize(&text), padded(c), "U+{:04X}", v);
    }
}
