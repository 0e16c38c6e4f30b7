//! The byte layout of embedding weights: the weight types, the byte orders,
//! and the split of a weights buffer into fixed-width words (the raw bit
//! patterns of the floating-point weights).
use vstd::prelude::*;
use vstd::bytes::{
    spec_u16_from_le_bytes, spec_u16_to_le_bytes, spec_u32_from_le_bytes, spec_u32_to_le_bytes,
    u16_from_le_bytes, u16_to_le_bytes, u32_from_le_bytes, u32_to_le_bytes,
    lemma_auto_spec_u16_to_from_le_bytes, lemma_auto_spec_u32_to_from_le_bytes,
};
use vstd::slice::slice_subrange;
use crate::text::push_bytes;

verus! {

/// Byte order of the words of a weights buffer.
#[derive(Debug, Clone, Copy)]
pub enum Endianness {
    Little,
    Big,
}

/// Storage type of the embedding weights.
#[derive(Debug, Clone, Copy, PartialEq, Eq, Structural)]
pub enum WeightsDType {
    F32,
    F16,
}

impl WeightsDType {
    /// Bytes per stored weight: 4 for `F32`, 2 for `F16`.
    pub open spec fn spec_bytes_per_weight(self) -> nat {
        match self {
            WeightsDType::F32 => 4,
            WeightsDType::F16 => 2,
        }
    }

    /// The code of the type in the model binary: 0 for `F32`, 1 for `F16`.
    pub open spec fn spec_code(self) -> u8 {
        match self {
            WeightsDType::F32 => 0,
            WeightsDType::F16 => 1,
        }
    }

    pub fn bytes_per_weight(&self) -> (n: usize)
        ensures
            n == self.spec_bytes_per_weight(),
    {
        match self {
            WeightsDType::F32 => 4,
            WeightsDType::F16 => 2,
        }
    }

    pub fn code(&self) -> (c: u8)
        ensures
            c == self.spec_code(),
    {
        match self {
            WeightsDType::F32 => 0,
            WeightsDType::F16 => 1,
        }
    }
}

/// The bytes of word `i` of width `w`, least significant first.
pub open spec fn word_bytes(buffer: Seq<u8>, i: int, w: int, e: Endianness) -> Seq<u8> {
    let raw = buffer.subrange(i * w, i * w + w);
    match e {
        Endianness::Little => raw,
        Endianness::Big => raw.reverse(),
    }
}

/// Word `i` of a buffer of 4-byte words.
pub open spec fn word32_at(buffer: Seq<u8>, i: int, e: Endianness) -> u32 {
    spec_u32_from_le_bytes(word_bytes(buffer, i, 4, e))
}

/// Word `i` of a buffer of 2-byte words.
pub open spec fn word16_at(buffer: Seq<u8>, i: int, e: Endianness) -> u16 {
    spec_u16_from_le_bytes(word_bytes(buffer, i, 2, e))
}

/// Words written one after the other, each least significant byte first.
pub open spec fn words32_le_bytes(words: Seq<u32>) -> Seq<u8>
    decreases words.len(),
{
    if words.len() == 0 {
        Seq::<u8>::empty()
    } else {
        words32_le_bytes(words.drop_last()) + spec_u32_to_le_bytes(words.last())
    }
}

/// Words written one after the other, each least significant byte first.
pub open spec fn words16_le_bytes(words: Seq<u16>) -> Seq<u8>
    decreases words.len(),
{
    if words.len() == 0 {
        Seq::<u8>::empty()
    } else {
        words16_le_bytes(words.drop_last()) + spec_u16_to_le_bytes(words.last())
    }
}

/// Splits a buffer into 4-byte words (the bit patterns of `f32` weights).
pub fn decode_words_u32(buffer: &[u8], endianness: &Endianness) -> (res: Vec<u32>)
    requires
        buffer@.len() % 4 == 0,
    ensures
        res@.len() == buffer@.len() / 4,
        forall|i: int| 0 <= i < res@.len() ==> #[trigger] res@[i] == word32_at(buffer@, i, *endianness),
{
    let n = buffer.len() / 4;
    assert(4 * n == buffer@.len());
    let mut res: Vec<u32> = Vec::new();
    let mut i: usize = 0;
    while i < n
        invariant
            n == buffer@.len() / 4,
            4 * n == buffer@.len(),
            buffer@.len() == buffer.len(),
            buffer@.len() % 4 == 0,
            i <= n,
            res@.len() == i,
            forall|k: int| 0 <= k < i ==> #[trigger] res@[k] == word32_at(buffer@, k, *endianness),
        decreases n - i,
    {
        let chunk = slice_subrange(buffer, 4 * i, 4 * i + 4);
        let w = match endianness {
            Endianness::Little => u32_from_le_bytes(chunk),
            Endianness::Big => {
                let rev: Vec<u8> = vec![chunk[3], chunk[2], chunk[1], chunk[0]];
                assert(rev@ =~= chunk@.reverse());
                u32_from_le_bytes(rev.as_slice())
            },
        };
        res.push(w);
        i += 1;
    }
    res
}

/// Splits a buffer into 2-byte words (the bit patterns of `f16` weights).
pub fn decode_words_u16(buffer: &[u8], endianness: &Endianness) -> (res: Vec<u16>)
    requires
        buffer@.len() % 2 == 0,
    ensures
        res@.len() == buffer@.len() / 2,
        forall|i: int| 0 <= i < res@.len() ==> #[trigger] res@[i] == word16_at(buffer@, i, *endianness),
{
    let n = buffer.len() / 2;
    assert(2 * n == buffer@.len());
    let mut res: Vec<u16> = Vec::new();
    let mut i: usize = 0;
    while i < n
        invariant
            n == buffer@.len() / 2,
            2 * n == buffer@.len(),
            buffer@.len() == buffer.len(),
            buffer@.len() % 2 == 0,
            i <= n,
            res@.len() == i,
            forall|k: int| 0 <= k < i ==> #[trigger] res@[k] == word16_at(buffer@, k, *endianness),
        decreases n - i,
    {
        let chunk = slice_subrange(buffer, 2 * i, 2 * i + 2);
        let w = match endianness {
            Endianness::Little => u16_from_le_bytes(chunk),
            Endianness::Big => {
                let rev: Vec<u8> = vec![chunk[1], chunk[0]];
                assert(rev@ =~= chunk@.reverse());
                u16_from_le_bytes(rev.as_slice())
            },
        };
        res.push(w);
        i += 1;
    }
    res
}

/// Writes 4-byte words, each least significant byte first.
pub fn encode_words_u32_le(words: &[u32]) -> (res: Vec<u8>)
    ensures
        res@ == words32_le_bytes(words@),
{
    let mut res: Vec<u8> = Vec::new();
    let mut i: usize = 0;
    while i < words.len()
        invariant
            i <= words.len(),
            res@ == words32_le_bytes(words@.take(i as int)),
        decreases words.len() - i,
    {
        let bytes = u32_to_le_bytes(words[i]);
        push_bytes(&mut res, bytes.as_slice());
        assert(words@.take(i + 1).drop_last() =~= words@.take(i as int));
        i += 1;
    }
    assert(words@.take(words.len() as int) =~= words@);
    res
}

/// Writes 2-byte words, each least significant byte first.
pub fn encode_words_u16_le(words: &[u16]) -> (res: Vec<u8>)
    ensures
        res@ == words16_le_bytes(words@),
{
    let mut res: Vec<u8> = Vec::new();
    let mut i: usize = 0;
    while i < words.len()
        invariant
            i <= words.len(),
            res@ == words16_le_bytes(words@.take(i as int)),
        decreases words.len() - i,
    {
        let bytes = u16_to_le_bytes(words[i]);
        push_bytes(&mut res, bytes.as_slice());
        assert(words@.take(i + 1).drop_last() =~= words@.take(i as int));
        i += 1;
    }
    assert(words@.take(words.len() as int) =~= words@);
    res
}

proof fn lemma_words32_len(words: Seq<u32>)
    ensures
        words32_le_bytes(words).len() == 4 * words.len(),
    decreases words.len(),
{
    lemma_auto_spec_u32_to_from_le_bytes();
    if words.len() > 0 {
        lemma_words32_len(words.drop_last());
    }
}

proof fn lemma_words16_len(words: Seq<u16>)
    ensures
        words16_le_bytes(words).len() == 2 * words.len(),
    decreases words.len(),
{
    lemma_auto_spec_u16_to_from_le_bytes();
    if words.len() > 0 {
        lemma_words16_len(words.drop_last());
    }
}

/// Writing 4-byte words little-endian and splitting the bytes again gives
/// the same words back.
pub proof fn lemma_words32_roundtrip(words: Seq<u32>)
    ensures
        words32_le_bytes(words).len() == 4 * words.len(),
        forall|i: int|
            0 <= i < words.len() ==> #[trigger] word32_at(
                words32_le_bytes(words),
                i,
                Endianness::Little,
            ) == words[i],
    decreases words.len(),
{
    lemma_auto_spec_u32_to_from_le_bytes();
    lemma_words32_len(words);
    if words.len() > 0 {
        let init = words.drop_last();
        lemma_words32_roundtrip(init);
        let bytes = words32_le_bytes(words);
        let prefix = words32_le_bytes(init);
        assert forall|i: int| 0 <= i < words.len() implies #[trigger] word32_at(
            bytes,
            i,
            Endianness::Little,
        ) == words[i] by {
            if i < init.len() {
                assert(bytes.subrange(i * 4, i * 4 + 4) =~= prefix.subrange(i * 4, i * 4 + 4));
                assert(word32_at(prefix, i, Endianness::Little) == init[i]);
            } else {
                assert(bytes.subrange(i * 4, i * 4 + 4) =~= spec_u32_to_le_bytes(words.last()));
            }
        }
    }
}

/// Writing 2-byte words little-endian and splitting the bytes again gives
/// the same words back.
pub proof fn lemma_words16_roundtrip(words: Seq<u16>)
    ensures
        words16_le_bytes(words).len() == 2 * words.len(),
        forall|i: int|
            0 <= i < words.len() ==> #[trigger] word16_at(
                words16_le_bytes(words),
                i,
                Endianness::Little,
            ) == words[i],
    decreases words.len(),
{
    lemma_auto_spec_u16_to_from_le_bytes();
    lemma_words16_len(words);
    if words.len() > 0 {
        let init = words.drop_last();
        lemma_words16_roundtrip(init);
        let bytes = words16_le_bytes(words);
        let prefix = words16_le_bytes(init);
        assert forall|i: int| 0 <= i < words.len() implies #[trigger] word16_at(
            bytes,
            i,
            Endianness::Little,
        ) == words[i] by {
            if i < init.len() {
                assert(bytes.subrange(i * 2, i * 2 + 2) =~= prefix.subrange(i * 2, i * 2 + 2));
                assert(word16_at(prefix, i, Endianness::Little) == init[i]);
            } else {
                assert(bytes.subrange(i * 2, i * 2 + 2) =~= spec_u16_to_le_bytes(words.last()));
            }
        }
    }
}

} // verus!
