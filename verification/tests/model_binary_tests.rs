use stembed::model_binary::{ModelBinaryError, StaticEmbeddingModelBuilder};
use stembed::vocab::Vocab;
use stembed::weights::WeightsDType;

fn small_builder(dtype: WeightsDType, weights: Vec<u8>) -> StaticEmbeddingModelBuilder {
    let vocab = Vocab::from_newline_deliminated_string("a\nbc", 1);
    StaticEmbeddingModelBuilder::new(2, vocab, weights.into_boxed_slice(), dtype)
}

fn small_binary() -> Vec<u8> {
    let mut v = vec![2, 0, 0, 0, 1, 1, 0, 0, 0, 2, 0, 0, 0];
    v.extend_from_slice(&[1, 0, 0, 0, b'a']);
    v.extend_from_slice(&[2, 0, 0, 0, b'b', b'c']);
    v.extend_from_slice(&[1, 2, 3, 4, 5, 6, 7, 8]);
    v
}

#[test]
fn to_model_binary_exact_bytes() {
    let b = small_builder(WeightsDType::F16, vec![1, 2, 3, 4, 5, 6, 7, 8]);
    assert_eq!(b.to_model_binary().to_vec(), small_binary());
}

#[test]
fn from_model_binary_reads_fields() {
    let b = StaticEmbeddingModelBuilder::from_model_binary(&small_binary()).unwrap();
    assert_eq!(b.dim, 2);
    assert_eq!(b.weights_dtype, WeightsDType::F16);
    assert_eq!(b.vocab.unk_token_id, 1);
    assert_eq!(b.vocab.get_token_to_id("a"), Some(0));
    assert_eq!(b.vocab.get_token_to_id("bc"), Some(1));
    assert_eq!(b.vocab.vocab.len(), 2);
    assert_eq!(b.weights.to_vec(), vec![1, 2, 3, 4, 5, 6, 7, 8]);
}

#[test]
fn model_binary_roundtrip_f32_unicode() {
    let vocab = Vocab::from_newline_deliminated_string("[UNK]\nüber\n中文\n##ß", 0);
    let weights: Vec<u8> = (0..(3 * 4 * 4)).map(|x| x as u8).collect();
    let b = StaticEmbeddingModelBuilder::new(3, vocab, weights.clone().into_boxed_slice(), WeightsDType::F32);
    let bin = b.to_model_binary();
    let back = StaticEmbeddingModelBuilder::from_model_binary(&bin).unwrap();
    assert_eq!(back.dim, 3);
    assert_eq!(back.weights_dtype, WeightsDType::F32);
    assert_eq!(back.vocab.unk_token_id, 0);
    for (i, t) in ["[UNK]", "über", "中文", "##ß"].iter().enumerate() {
        assert_eq!(back.vocab.get_token_to_id(t), Some(i));
    }
    assert_eq!(back.weights.to_vec(), weights);
    assert_eq!(back.to_model_binary(), bin);
}

#[test]
fn model_binary_empty_vocab() {
    let vocab = Vocab::from_newline_deliminated_string("", 7);
    let b = StaticEmbeddingModelBuilder::new(5, vocab, Vec::new().into_boxed_slice(), WeightsDType::F16);
    let bin = b.to_model_binary();
    assert_eq!(bin.to_vec(), vec![5, 0, 0, 0, 1, 7, 0, 0, 0, 0, 0, 0, 0]);
    let back = StaticEmbeddingModelBuilder::from_model_binary(&bin).unwrap();
    assert_eq!(back.dim, 5);
    assert_eq!(back.vocab.vocab.len(), 0);
}

#[test]
fn from_model_binary_unexpected_eof() {
    let full = small_binary();
    for cut in [0usize, 3, 4, 8, 12, 13, 16, 17, 20, 22] {
        let r = StaticEmbeddingModelBuilder::from_model_binary(&full[..cut]);
        assert!(matches!(r, Err(ModelBinaryError::UnexpectedEof)), "cut at {}", cut);
    }
}

#[test]
fn from_model_binary_invalid_dtype() {
    let mut bin = small_binary();
    bin[4] = 7;
    let r = StaticEmbeddingModelBuilder::from_model_binary(&bin);
    assert!(matches!(r, Err(ModelBinaryError::InvalidDType(7))));
    let r = StaticEmbeddingModelBuilder::from_model_binary(&[0, 0, 0, 0, 2]);
    assert!(matches!(r, Err(ModelBinaryError::InvalidDType(2))));
}

#[test]
fn from_model_binary_invalid_utf8() {
    let mut bin = small_binary();
    bin[17] = 0xff;
    let r = StaticEmbeddingModelBuilder::from_model_binary(&bin);
    assert!(matches!(r, Err(ModelBinaryError::InvalidUtf8(_))));
}

#[test]
fn from_model_binary_invalid_weights_length() {
    let mut bin = small_binary();
    bin.pop();
    let r = StaticEmbeddingModelBuilder::from_model_binary(&bin);
    assert!(matches!(r, Err(ModelBinaryError::InvalidWeightsLength { expected: 8, actual: 7 })));
    let mut bin = small_binary();
    bin.push(9);
    let r = StaticEmbeddingModelBuilder::from_model_binary(&bin);
    assert!(matches!(r, Err(ModelBinaryError::InvalidWeightsLength { expected: 8, actual: 9 })));
}

#[test]
fn from_model_binary_repeated_token_keeps_last_id() {
    let mut v = vec![0, 0, 0, 0, 0, 0, 0, 0, 0, 2, 0, 0, 0];
    v.extend_from_slice(&[1, 0, 0, 0, b'x']);
    v.extend_from_slice(&[1, 0, 0, 0, b'x']);
    let b = StaticEmbeddingModelBuilder::from_model_binary(&v).unwrap();
    assert_eq!(b.vocab.get_token_to_id("x"), Some(1));
    assert_eq!(b.vocab.vocab.len(), 1);
}

#[test]
fn builder_new_keeps_fields() {
    let b = small_builder(WeightsDType::F32, vec![0; 16]);
    assert_eq!(b.dim, 2);
    assert_eq!(b.weights.len(), 16);
    assert_eq!(b.weights_dtype, WeightsDType::F32);
}

#[test]
fn no_proper_prefix_of_a_model_binary_reads() {
    let full = small_binary();
    for cut in 0..full.len() {
        let r = StaticEmbeddingModelBuilder::from_model_binary(&full[..cut]);
        match r {
            Err(ModelBinaryError::UnexpectedEof) => {}
            Err(ModelBinaryError::InvalidWeightsLength { expected, actual }) => {
                assert_eq!(expected, 8, "cut at {}", cut);
                assert!(actual < expected, "cut at {}", cut);
            }
            other => panic!("cut at {}: {:?}", cut, other),
        }
    }
}
