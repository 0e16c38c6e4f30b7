//! The model binary format and the model builder that it stores:
//!
//! `[dim: u32, dtype: u8, unk_token_id: u32, vocab_size: u32,
//!   vocab: { bytelen: u32, content: u8[bytelen] }[vocab_size], weights]`
//!
//! with every integer little-endian, the dtype 0 for `f32` and 1 for `f16`
//! weights, and the tokens listed in the order of their ids.
use vstd::prelude::*;
use vstd::bytes::{spec_u32_from_le_bytes, spec_u32_to_le_bytes, u32_from_le_bytes, u32_to_le_bytes, lemma_auto_spec_u32_to_from_le_bytes};
use vstd::slice::{slice_subrange, slice_to_vec};
use vstd::utf8::{valid_utf8, decode_utf8, encode_utf8, encode_utf8_valid_utf8, encode_utf8_decode_utf8, decode_utf8_encode_utf8};
use crate::text::{str_to_chars, chars_to_string, push_bytes};
use crate::token_map::{TokenMap, ids_are_dense, id_in_use};
use crate::vocab::{Vocab, index_map, lemma_distinct_tokens_dense, lemma_index_map_keys};
use crate::weights::WeightsDType;

verus! {

/// `std::str::Utf8Error`, the error of `std::str::from_utf8`, carried through unread.
#[verifier::external_type_specification]
#[verifier::external_body]
pub struct ExUtf8Error(std::str::Utf8Error);

/// `std::str::from_utf8`: succeeds exactly on valid UTF-8, and the string
/// it returns is made of the same bytes. Nothing is stated of the error value.
#[verifier::external_body]
fn str_from_utf8(bytes: &[u8]) -> (r: Result<&str, std::str::Utf8Error>)
    ensures
        r is Ok <==> valid_utf8(bytes@),
        r matches Ok(s) ==> encode_utf8(s@) == bytes@,
{
    std::str::from_utf8(bytes)
}

/// `Vec::into_boxed_slice`: the same elements in a boxed slice.
#[verifier::external_body]
fn into_boxed_bytes(v: Vec<u8>) -> (b: Box<[u8]>)
    ensures
        b@ == v@,
{
    v.into_boxed_slice()
}

#[derive(Debug)]
pub struct StaticEmbeddingModelBuilder {
    pub dim: usize,
    pub vocab: Vocab,
    pub weights: Box<[u8]>,
    pub weights_dtype: WeightsDType,
}

#[derive(Debug)]
pub enum ModelBinaryError {
    UnexpectedEof,
    InvalidDType(u8),
    InvalidUtf8(std::str::Utf8Error),
    InvalidWeightsLength { expected: usize, actual: usize },
    Overflow,
}

/// Why a byte sequence is not a model binary.
pub enum DecodeFailure {
    UnexpectedEof,
    InvalidDType(u8),
    InvalidUtf8,
    InvalidWeightsLength { expected: usize, actual: usize },
    Overflow,
}

/// The contents of a model binary.
pub struct DecodedModel {
    pub dim: usize,
    pub dtype: WeightsDType,
    pub unk_token_id: usize,
    pub vocab: Map<Seq<char>, usize>,
    pub weights: Seq<u8>,
}

impl ModelBinaryError {
    /// This error is the one that `f` names.
    pub open spec fn describes(self, f: DecodeFailure) -> bool {
        match (self, f) {
            (ModelBinaryError::UnexpectedEof, DecodeFailure::UnexpectedEof) => true,
            (ModelBinaryError::InvalidDType(a), DecodeFailure::InvalidDType(b)) => a == b,
            (ModelBinaryError::InvalidUtf8(_), DecodeFailure::InvalidUtf8) => true,
            (
                ModelBinaryError::InvalidWeightsLength { expected: e1, actual: a1 },
                DecodeFailure::InvalidWeightsLength { expected: e2, actual: a2 },
            ) => e1 == e2 && a1 == a2,
            (ModelBinaryError::Overflow, DecodeFailure::Overflow) => true,
            _ => false,
        }
    }
}

// ---------------------------------------------------------------------
// The format, as a function from a model to bytes.
// ---------------------------------------------------------------------

/// A token record: the byte length of the token's UTF-8 encoding, then the encoding.
pub open spec fn token_record(t: Seq<char>) -> Seq<u8> {
    spec_u32_to_le_bytes(encode_utf8(t).len() as u32) + encode_utf8(t)
}

/// The token records of `ts`, in order.
pub open spec fn token_records(ts: Seq<Seq<char>>) -> Seq<u8>
    decreases ts.len(),
{
    if ts.len() == 0 {
        Seq::<u8>::empty()
    } else {
        token_records(ts.drop_last()) + token_record(ts.last())
    }
}

/// The token whose id is `i`.
pub open spec fn key_of_id(m: Map<Seq<char>, usize>, i: int) -> Seq<char> {
    choose|k: Seq<char>| m.contains_key(k) && m[k] == i
}

/// The tokens of `m` ordered by id.
pub open spec fn tokens_in_id_order(m: Map<Seq<char>, usize>) -> Seq<Seq<char>> {
    Seq::new(m.dom().len(), |i: int| key_of_id(m, i))
}

/// The 13-byte header.
pub open spec fn model_header(dim: usize, dtype: WeightsDType, unk: usize, n: nat) -> Seq<u8> {
    spec_u32_to_le_bytes(dim as u32) + seq![dtype.spec_code()] + spec_u32_to_le_bytes(unk as u32)
        + spec_u32_to_le_bytes(n as u32)
}

/// The model binary of a model.
pub open spec fn model_binary(
    dim: usize,
    dtype: WeightsDType,
    unk: usize,
    m: Map<Seq<char>, usize>,
    weights: Seq<u8>,
) -> Seq<u8> {
    model_header(dim, dtype, unk, m.dom().len()) + token_records(tokens_in_id_order(m)) + weights
}

/// The models that have a model binary: every number fits its field, the
/// ids are exactly `0 .. vocab_size`, and the weights hold
/// `dim * vocab_size` weights of the dtype.
pub open spec fn serializable(
    dim: usize,
    dtype: WeightsDType,
    unk: usize,
    m: Map<Seq<char>, usize>,
    weights: Seq<u8>,
) -> bool {
    &&& m.dom().finite()
    &&& dim <= u32::MAX
    &&& unk <= u32::MAX
    &&& m.dom().len() <= u32::MAX
    &&& dim * m.dom().len() * dtype.spec_bytes_per_weight() <= usize::MAX
    &&& weights.len() == dim * m.dom().len() * dtype.spec_bytes_per_weight()
    &&& ids_are_dense(m)
    &&& forall|k: Seq<char>| #[trigger] m.contains_key(k) ==> encode_utf8(k).len() <= u32::MAX
}

// ---------------------------------------------------------------------
// The format, as a parser from bytes to a model.
// ---------------------------------------------------------------------

/// The little-endian `u32` at `off`.
pub open spec fn read_u32(data: Seq<u8>, off: int) -> u32 {
    spec_u32_from_le_bytes(data.subrange(off, off + 4))
}

/// The token record at `off`, and the offset after it.
pub open spec fn decode_token(data: Seq<u8>, off: int) -> Result<(Seq<char>, int), DecodeFailure> {
    if off + 4 > data.len() {
        Err(DecodeFailure::UnexpectedEof)
    } else {
        let len = read_u32(data, off) as int;
        if off + 4 + len > data.len() {
            Err(DecodeFailure::UnexpectedEof)
        } else {
            let bytes = data.subrange(off + 4, off + 4 + len);
            if valid_utf8(bytes) {
                Ok((decode_utf8(bytes), off + 4 + len))
            } else {
                Err(DecodeFailure::InvalidUtf8)
            }
        }
    }
}

/// `count` token records from `start`, and the offset after them.
pub open spec fn decode_tokens(data: Seq<u8>, start: int, count: nat) -> Result<
    (Seq<Seq<char>>, int),
    DecodeFailure,
>
    decreases count,
{
    if count == 0 {
        Ok((Seq::<Seq<char>>::empty(), start))
    } else {
        match decode_tokens(data, start, (count - 1) as nat) {
            Err(e) => Err(e),
            Ok((ts, off)) => match decode_token(data, off) {
                Err(e) => Err(e),
                Ok((t, next)) => Ok((ts.push(t), next)),
            },
        }
    }
}

pub open spec fn dtype_of_code(code: u8) -> WeightsDType {
    if code == 0 {
        WeightsDType::F32
    } else {
        WeightsDType::F16
    }
}

/// The model that `data` holds, or the first thing wrong with it.
pub open spec fn decode_model(data: Seq<u8>) -> Result<DecodedModel, DecodeFailure> {
    if data.len() < 5 {
        Err(DecodeFailure::UnexpectedEof)
    } else if data[4] > 1 {
        Err(DecodeFailure::InvalidDType(data[4]))
    } else if data.len() < 13 {
        Err(DecodeFailure::UnexpectedEof)
    } else {
        let dim = read_u32(data, 0) as usize;
        let dtype = dtype_of_code(data[4]);
        let unk = read_u32(data, 5) as usize;
        let n = read_u32(data, 9) as nat;
        match decode_tokens(data, 13, n) {
            Err(e) => Err(e),
            Ok((ts, off)) => {
                let expected = dim * n * dtype.spec_bytes_per_weight();
                let actual = data.len() - off;
                if expected > usize::MAX {
                    Err(DecodeFailure::Overflow)
                } else if actual != expected {
                    Err(
                        DecodeFailure::InvalidWeightsLength {
                            expected: expected as usize,
                            actual: actual as usize,
                        },
                    )
                } else {
                    Ok(
                        DecodedModel {
                            dim,
                            dtype,
                            unk_token_id: unk,
                            vocab: index_map(ts),
                            weights: data.subrange(off, data.len() as int),
                        },
                    )
                }
            },
        }
    }
}


/// A read that fails at the token after `i` tokens fails the whole list.
proof fn lemma_decode_tokens_fails(
    data: Seq<u8>,
    start: int,
    i: nat,
    count: nat,
    ts: Seq<Seq<char>>,
    off: int,
    e: DecodeFailure,
)
    requires
        i < count,
        decode_tokens(data, start, i) == Ok::<(Seq<Seq<char>>, int), DecodeFailure>((ts, off)),
        decode_token(data, off) == Err::<(Seq<char>, int), DecodeFailure>(e),
    ensures
        decode_tokens(data, start, count) == Err::<(Seq<Seq<char>>, int), DecodeFailure>(e),
    decreases count,
{
    if count - 1 > i {
        lemma_decode_tokens_fails(data, start, i, (count - 1) as nat, ts, off, e);
    }
}

proof fn lemma_product_overflow(a: int, b: int, c: int)
    by (nonlinear_arith)
    requires
        a * b > usize::MAX,
        c >= 1,
        a >= 0,
        b >= 0,
    ensures
        a * b * c > usize::MAX,
{
}

impl StaticEmbeddingModelBuilder {
    /// This builder holds the decoded model `d`.
    pub open spec fn holds(self, d: DecodedModel) -> bool {
        &&& self.dim == d.dim
        &&& self.weights_dtype == d.dtype
        &&& self.vocab.unk_token_id == d.unk_token_id
        &&& self.vocab@ == d.vocab
        &&& self.weights@ == d.weights
    }

    pub fn new(dim: usize, vocab: Vocab, weights: Box<[u8]>, weights_dtype: WeightsDType) -> (res: Self)
        ensures
            res.dim == dim,
            res.vocab == vocab,
            res.weights == weights,
            res.weights_dtype == weights_dtype,
    {
        Self { dim, vocab, weights, weights_dtype }
    }


    /// Whether the model has a model binary (see `serializable`): the
    /// conditions that serialization checks before it writes anything.
    pub fn can_serialize(&self) -> (b: bool)
        requires
            self.vocab.wf(),
        ensures
            b == serializable(
                self.dim,
                self.weights_dtype,
                self.vocab.unk_token_id,
                self.vocab@,
                self.weights@,
            ),
    {
        proof {
            self.vocab.vocab.lemma_dom_finite();
        }
        let limit = u32::MAX as usize;
        if self.dim > limit || self.vocab.unk_token_id > limit {
            return false;
        }
        let n = self.vocab.vocab.len();
        if n > limit {
            return false;
        }
        let bytes_per_weight = self.weights_dtype.bytes_per_weight();
        let expected = match self.dim.checked_mul(n) {
            Some(x) => match x.checked_mul(bytes_per_weight) {
                Some(y) => y,
                None => {
                    return false;
                },
            },
            None => {
                proof {
                    lemma_product_overflow(self.dim as int, n as int, bytes_per_weight as int);
                }
                return false;
            },
        };
        if self.weights.len() != expected {
            return false;
        }
        if !self.vocab.vocab.has_dense_ids() {
            return false;
        }
        self.vocab.vocab.keys_fit_utf8(limit)
    }

    /// Serializes the model to the model binary format.
    pub fn to_model_binary(&self) -> (res: Box<[u8]>)
        requires
            self.vocab.wf(),
            serializable(
                self.dim,
                self.weights_dtype,
                self.vocab.unk_token_id,
                self.vocab@,
                self.weights@,
            ),
        ensures
            res@ == model_binary(
                self.dim,
                self.weights_dtype,
                self.vocab.unk_token_id,
                self.vocab@,
                self.weights@,
            ),
    {
        let ghost m = self.vocab@;
        let dim_u32 = self.dim as u32;
        let unk_u32 = self.vocab.unk_token_id as u32;
        let n = self.vocab.vocab.len();
        let n_u32 = n as u32;
        let code = self.weights_dtype.code();
        let tokens = self.vocab.vocab.keys_by_id();
        let ghost ts = tokens_in_id_order(m);
        proof {
            assert forall|i: int| 0 <= i < n implies #[trigger] tokens@[i]@ == ts[i] by {
                let k = tokens@[i]@;
                assert(id_in_use(m, i));
                let c = key_of_id(m, i);
                if c != k {
                    assert(m[c] != m[k]);
                }
            }
        }
        let mut data: Vec<u8> = Vec::new();
        push_bytes(&mut data, u32_to_le_bytes(dim_u32).as_slice());
        data.push(code);
        push_bytes(&mut data, u32_to_le_bytes(unk_u32).as_slice());
        push_bytes(&mut data, u32_to_le_bytes(n_u32).as_slice());
        let ghost header = model_header(self.dim, self.weights_dtype, self.vocab.unk_token_id, m.dom().len());
        assert(data@ =~= header);
        assert(ts.take(0) =~= Seq::<Seq<char>>::empty());
        let mut i: usize = 0;
        while i < n
            invariant
                i <= n,
                n == m.dom().len(),
                tokens@.len() == n,
                ts.len() == n,
                m == self.vocab@,
                forall|j: int| 0 <= j < n ==> #[trigger] tokens@[j]@ == ts[j],
                forall|j: int| 0 <= j < n ==> m.contains_key(#[trigger] tokens@[j]@),
                forall|k: Seq<char>| #[trigger] m.contains_key(k) ==> encode_utf8(k).len() <= u32::MAX,
                data@ == header + token_records(ts.take(i as int)),
            decreases n - i,
        {
            let s = chars_to_string(tokens[i].as_slice());
            let bytes = s.as_str().as_bytes();
            let len = bytes.len();
            assert(m.contains_key(tokens@[i as int]@));
            let len_u32 = len as u32;
            let ghost before = data@;
            push_bytes(&mut data, u32_to_le_bytes(len_u32).as_slice());
            push_bytes(&mut data, bytes);
            proof {
                assert(ts.take(i + 1).drop_last() =~= ts.take(i as int));
                assert(ts.take(i + 1).last() == ts[i as int]);
                assert(data@ =~= header + token_records(ts.take(i + 1)));
            }
            i += 1;
        }
        assert(ts.take(n as int) =~= ts);
        push_bytes(&mut data, &self.weights);
        into_boxed_bytes(data)
    }

    /// Reads a model from the model binary format.
    pub fn from_model_binary(data: &[u8]) -> (res: Result<Self, ModelBinaryError>)
        ensures
            match decode_model(data@) {
                Ok(d) => res matches Ok(b) && b.holds(d) && b.vocab.wf(),
                Err(f) => res matches Err(e) && e.describes(f),
            },
    {
        proof {
            lemma_auto_spec_u32_to_from_le_bytes();
        }
        if data.len() < 4 {
            return Err(ModelBinaryError::UnexpectedEof);
        }
        let dim = u32_from_le_bytes(slice_subrange(data, 0, 4)) as usize;
        if data.len() < 5 {
            return Err(ModelBinaryError::UnexpectedEof);
        }
        let code = data[4];
        let weights_dtype = if code == 0 {
            WeightsDType::F32
        } else if code == 1 {
            WeightsDType::F16
        } else {
            return Err(ModelBinaryError::InvalidDType(code));
        };
        if data.len() < 9 {
            return Err(ModelBinaryError::UnexpectedEof);
        }
        let unk_token_id = u32_from_le_bytes(slice_subrange(data, 5, 9)) as usize;
        if data.len() < 13 {
            return Err(ModelBinaryError::UnexpectedEof);
        }
        let vocab_size = u32_from_le_bytes(slice_subrange(data, 9, 13)) as usize;
        let ghost n = read_u32(data@, 9) as nat;
        assert(vocab_size == n);
        let mut map = TokenMap::with_capacity(vocab_size);
        let mut offset: usize = 13;
        let ghost mut ts: Seq<Seq<char>> = Seq::empty();
        let mut i: usize = 0;
        while i < vocab_size
            invariant
                vocab_size == n,
                n == read_u32(data@, 9) as nat,
                data.len() >= 13,
                data@[4] <= 1,
                i <= vocab_size,
                13 <= offset <= data.len(),
                decode_tokens(data@, 13, i as nat) == Ok::<(Seq<Seq<char>>, int), DecodeFailure>((ts, offset as int)),
                map.wf(),
                map@ == index_map(ts),
                ts.len() == i,
                map@.dom().len() <= i,
            decreases vocab_size - i,
        {
            if data.len() - offset < 4 {
                proof {
                    lemma_decode_tokens_fails(data@, 13, i as nat, n, ts, offset as int, DecodeFailure::UnexpectedEof);
                }
                return Err(ModelBinaryError::UnexpectedEof);
            }
            let token_len = u32_from_le_bytes(slice_subrange(data, offset, offset + 4)) as usize;
            if data.len() - offset - 4 < token_len {
                proof {
                    lemma_decode_tokens_fails(data@, 13, i as nat, n, ts, offset as int, DecodeFailure::UnexpectedEof);
                }
                return Err(ModelBinaryError::UnexpectedEof);
            }
            let end = offset + 4 + token_len;
            let bytes = slice_subrange(data, offset + 4, end);
            let s = match str_from_utf8(bytes) {
                Ok(s) => s,
                Err(e) => {
                    proof {
                        lemma_decode_tokens_fails(data@, 13, i as nat, n, ts, offset as int, DecodeFailure::InvalidUtf8);
                    }
                    return Err(ModelBinaryError::InvalidUtf8(e));
                },
            };
            let token = str_to_chars(s);
            proof {
                encode_utf8_decode_utf8(s@);
                map.lemma_dom_finite();
            }
            let ghost t = token@;
            map.insert(token, i);
            proof {
                assert(ts.push(t).drop_last() =~= ts);
                ts = ts.push(t);
            }
            offset = end;
            i += 1;
        }
        let bytes_per_weight = weights_dtype.bytes_per_weight();
        let expected = match dim.checked_mul(vocab_size) {
            Some(x) => match x.checked_mul(bytes_per_weight) {
                Some(y) => y,
                None => {
                    return Err(ModelBinaryError::Overflow);
                },
            },
            None => {
                proof {
                    lemma_product_overflow(dim as int, vocab_size as int, bytes_per_weight as int);
                }
                return Err(ModelBinaryError::Overflow);
            },
        };
        let weights = slice_to_vec(slice_subrange(data, offset, data.len()));
        if weights.len() != expected {
            return Err(ModelBinaryError::InvalidWeightsLength { expected, actual: weights.len() });
        }
        let vocab = Vocab::new(map, unk_token_id);
        Ok(Self { dim, vocab, weights: into_boxed_bytes(weights), weights_dtype })
    }
}

// ---------------------------------------------------------------------
// Lemmas, and the round trip.
// ---------------------------------------------------------------------

proof fn lemma_token_record_len(t: Seq<char>)
    ensures
        token_record(t).len() == 4 + encode_utf8(t).len(),
{
    lemma_auto_spec_u32_to_from_le_bytes();
}

/// The records of a prefix of the tokens are a prefix of the records.
proof fn lemma_token_records_prefix(ts: Seq<Seq<char>>, j: int)
    requires
        0 <= j <= ts.len(),
    ensures
        token_records(ts.take(j)).len() <= token_records(ts).len(),
        token_records(ts).subrange(0, token_records(ts.take(j)).len() as int) == token_records(
            ts.take(j),
        ),
    decreases ts.len(),
{
    if j == ts.len() {
        assert(ts.take(j) =~= ts);
    } else {
        let init = ts.drop_last();
        assert(init.take(j) =~= ts.take(j));
        lemma_token_records_prefix(init, j);
        assert(token_records(ts) == token_records(init) + token_record(ts.last()));
        assert(token_records(ts).subrange(0, token_records(ts.take(j)).len() as int)
            =~= token_records(init).subrange(0, token_records(ts.take(j)).len() as int));
    }
}

/// Records written by `token_records` parse back to the same tokens.
proof fn lemma_decode_token_records(data: Seq<u8>, start: int, ts: Seq<Seq<char>>, j: int)
    requires
        0 <= start,
        0 <= j <= ts.len(),
        start + token_records(ts).len() <= data.len(),
        data.subrange(start, start + token_records(ts).len()) == token_records(ts),
        forall|i: int| 0 <= i < ts.len() ==> encode_utf8(#[trigger] ts[i]).len() <= u32::MAX,
    ensures
        decode_tokens(data, start, j as nat) == Ok::<(Seq<Seq<char>>, int), DecodeFailure>(
            (ts.take(j), start + token_records(ts.take(j)).len()),
        ),
    decreases j,
{
    if j == 0 {
        assert(ts.take(0) =~= Seq::<Seq<char>>::empty());
    } else {
        lemma_decode_token_records(data, start, ts, j - 1);
        lemma_auto_spec_u32_to_from_le_bytes();
        let prev = ts.take(j - 1);
        let cur = ts.take(j);
        assert(cur.drop_last() =~= prev);
        assert(cur.last() == ts[j - 1]);
        let t = ts[j - 1];
        let enc = encode_utf8(t);
        let off = start + token_records(prev).len();
        lemma_token_records_prefix(ts, j);
        lemma_token_record_len(t);
        let rec = token_records(cur);
        assert(rec == token_records(prev) + token_record(t));
        // The bytes at `off` are the record of `t`.
        assert(data.subrange(start, start + rec.len()) =~= rec) by {
            assert(data.subrange(start, start + rec.len()) =~= data.subrange(
                start,
                start + token_records(ts).len(),
            ).subrange(0, rec.len() as int));
        }
        assert(data.subrange(off, off + 4) =~= spec_u32_to_le_bytes(enc.len() as u32)) by {
            assert(data.subrange(off, off + 4) =~= data.subrange(start, start + rec.len()).subrange(
                token_records(prev).len() as int,
                (token_records(prev).len() + 4) as int,
            ));
        }
        assert(read_u32(data, off) == enc.len() as u32);
        assert(data.subrange(off + 4, off + 4 + enc.len()) =~= enc) by {
            assert(data.subrange(off + 4, off + 4 + enc.len()) =~= data.subrange(
                start,
                start + rec.len(),
            ).subrange((token_records(prev).len() + 4) as int, rec.len() as int));
        }
        encode_utf8_valid_utf8(t);
        encode_utf8_decode_utf8(t);
        assert(decode_token(data, off) == Ok::<(Seq<char>, int), DecodeFailure>(
            (t, off + 4 + enc.len()),
        ));
        assert(prev.push(t) =~= cur);
    }
}

/// With dense ids, inserting the tokens in id order rebuilds the map.
proof fn lemma_index_map_id_order(m: Map<Seq<char>, usize>)
    requires
        m.dom().finite(),
        ids_are_dense(m),
    ensures
        index_map(tokens_in_id_order(m)) == m,
{
    let ts = tokens_in_id_order(m);
    let n = m.dom().len();
    assert forall|i: int| 0 <= i < n implies m.contains_key(#[trigger] ts[i]) && m[ts[i]] == i by {
        assert(id_in_use(m, i));
    }
    lemma_index_map_id_order_upto(m, n as int);
    assert(ts.take(n as int) =~= ts);
    assert(index_map(ts) =~= m);
}

proof fn lemma_index_map_id_order_upto(m: Map<Seq<char>, usize>, j: int)
    requires
        m.dom().finite(),
        ids_are_dense(m),
        0 <= j <= m.dom().len(),
        forall|i: int|
            0 <= i < m.dom().len() ==> m.contains_key(#[trigger] tokens_in_id_order(m)[i])
                && m[tokens_in_id_order(m)[i]] == i,
    ensures
        index_map(tokens_in_id_order(m).take(j)) =~= Map::new(
            |k: Seq<char>| m.contains_key(k) && m[k] < j,
            |k: Seq<char>| m[k],
        ),
    decreases j,
{
    let ts = tokens_in_id_order(m);
    if j == 0 {
        assert(ts.take(0) =~= Seq::<Seq<char>>::empty());
    } else {
        lemma_index_map_id_order_upto(m, j - 1);
        assert(ts.take(j).drop_last() =~= ts.take(j - 1));
        let kj = ts[j - 1];
        assert(m.contains_key(kj) && m[kj] == j - 1);
        assert forall|k: Seq<char>| m.contains_key(k) && m[k] == j - 1 implies k == kj by {
            if k != kj {
                assert(m[k] != m[kj]);
            }
        }
    }
}

/// Reading back the model binary of a model gives the same model.
pub proof fn lemma_model_binary_roundtrip(
    dim: usize,
    dtype: WeightsDType,
    unk: usize,
    m: Map<Seq<char>, usize>,
    weights: Seq<u8>,
)
    requires
        serializable(dim, dtype, unk, m, weights),
    ensures
        decode_model(model_binary(dim, dtype, unk, m, weights)) == Ok::<DecodedModel, DecodeFailure>(
            DecodedModel { dim, dtype, unk_token_id: unk, vocab: m, weights },
        ),
{
    lemma_auto_spec_u32_to_from_le_bytes();
    let n = m.dom().len();
    let ts = tokens_in_id_order(m);
    let header = model_header(dim, dtype, unk, n);
    let recs = token_records(ts);
    let data = model_binary(dim, dtype, unk, m, weights);
    assert(header.len() == 13);
    assert(data.subrange(0, 4) =~= spec_u32_to_le_bytes(dim as u32));
    assert(data[4] == dtype.spec_code());
    assert(data.subrange(5, 9) =~= spec_u32_to_le_bytes(unk as u32));
    assert(data.subrange(9, 13) =~= spec_u32_to_le_bytes(n as u32));
    assert(read_u32(data, 0) == dim as u32);
    assert(read_u32(data, 9) == n as u32);
    assert forall|i: int| 0 <= i < ts.len() implies encode_utf8(#[trigger] ts[i]).len() <= u32::MAX by {
        assert(id_in_use(m, i));
    }
    assert(data.subrange(13, (13 + recs.len()) as int) =~= recs);
    lemma_decode_token_records(data, 13, ts, n as int);
    assert(ts.take(n as int) =~= ts);
    let off = (13 + recs.len()) as int;
    assert(data.subrange(off, data.len() as int) =~= weights);
    lemma_index_map_id_order(m);
    assert(dtype_of_code(data[4]) == dtype);
}


/// A prefix of `data` reads the same token records as `data` as long as they
/// end inside it, and runs out of data at the first one that does not.
proof fn lemma_decode_tokens_prefix(data: Seq<u8>, k: int, start: int, j: nat)
    requires
        0 <= start <= k <= data.len(),
        decode_tokens(data, start, j) is Ok,
    ensures
        ({
            let (ts, off) = decode_tokens(data, start, j)->Ok_0;
            &&& start <= off <= data.len()
            &&& off <= k ==> decode_tokens(data.take(k), start, j) == Ok::<(Seq<Seq<char>>, int), DecodeFailure>((ts, off))
            &&& off > k ==> decode_tokens(data.take(k), start, j) == Err::<(Seq<Seq<char>>, int), DecodeFailure>(DecodeFailure::UnexpectedEof)
        }),
    decreases j,
{
    if j > 0 {
        let p = data.take(k);
        lemma_decode_tokens_prefix(data, k, start, (j - 1) as nat);
        let (ts0, off0) = decode_tokens(data, start, (j - 1) as nat)->Ok_0;
        if off0 <= k {
            if off0 + 4 <= k {
                assert(p.subrange(off0, off0 + 4) =~= data.subrange(off0, off0 + 4));
                let len = read_u32(data, off0) as int;
                if off0 + 4 + len <= k {
                    assert(p.subrange(off0 + 4, off0 + 4 + len) =~= data.subrange(off0 + 4, off0 + 4 + len));
                }
            }
        }
    }
}

/// No proper prefix of a model binary reads as a model: reading it either
/// runs out of data, or finds fewer weight bytes than the header asks for.
pub proof fn lemma_model_binary_prefix(data: Seq<u8>, k: int)
    requires
        decode_model(data) is Ok,
        0 <= k < data.len(),
    ensures
        ({
            let r = decode_model(data.take(k));
            ||| r == Err::<DecodedModel, DecodeFailure>(DecodeFailure::UnexpectedEof)
            ||| r matches Err(DecodeFailure::InvalidWeightsLength { expected, actual }) && actual < expected
        }),
{
    let p = data.take(k);
    if k >= 13 {
        assert(p.subrange(0, 4) =~= data.subrange(0, 4));
        assert(p.subrange(5, 9) =~= data.subrange(5, 9));
        assert(p.subrange(9, 13) =~= data.subrange(9, 13));
        assert(p[4] == data[4]);
        let n = read_u32(data, 9) as nat;
        lemma_decode_tokens_prefix(data, k, 13, n);
    }
}

/// The tokens that a model binary lists, in order.
pub open spec fn listed_tokens(data: Seq<u8>) -> Seq<Seq<char>> {
    match decode_tokens(data, 13, read_u32(data, 9) as nat) {
        Ok((ts, _)) => ts,
        Err(_) => Seq::<Seq<char>>::empty(),
    }
}

/// Token records that parse are the records of the parsed tokens.
proof fn lemma_parsed_records(data: Seq<u8>, start: int, j: nat)
    requires
        0 <= start <= data.len(),
        decode_tokens(data, start, j) is Ok,
    ensures
        ({
            let (ts, off) = decode_tokens(data, start, j)->Ok_0;
            &&& start <= off <= data.len()
            &&& ts.len() == j
            &&& data.subrange(start, off) == token_records(ts)
            &&& forall|i: int| 0 <= i < ts.len() ==> encode_utf8(#[trigger] ts[i]).len() <= u32::MAX
        }),
    decreases j,
{
    lemma_auto_spec_u32_to_from_le_bytes();
    if j == 0 {
        assert(data.subrange(start, start) =~= Seq::<u8>::empty());
    } else {
        lemma_parsed_records(data, start, (j - 1) as nat);
        let (ts0, off0) = decode_tokens(data, start, (j - 1) as nat)->Ok_0;
        let (t, off) = decode_token(data, off0)->Ok_0;
        let ts = ts0.push(t);
        let len = read_u32(data, off0) as int;
        let bytes = data.subrange(off0 + 4, off0 + 4 + len);
        decode_utf8_encode_utf8(bytes);
        assert(encode_utf8(t) == bytes);
        assert(spec_u32_to_le_bytes(len as u32) == data.subrange(off0, off0 + 4));
        assert(ts.drop_last() =~= ts0);
        assert(data.subrange(start, off) =~= data.subrange(start, off0) + data.subrange(off0, off0 + 4) + bytes);
        assert forall|i: int| 0 <= i < ts.len() implies encode_utf8(#[trigger] ts[i]).len() <= u32::MAX by {
            if i < ts0.len() {
                assert(ts[i] == ts0[i]);
            }
        }
    }
}

/// A model binary whose tokens are distinct is exactly the model binary of
/// the model it holds: reading then writing gives the same bytes back.
pub proof fn lemma_model_binary_decode_encode(data: Seq<u8>)
    requires
        decode_model(data) is Ok,
        listed_tokens(data).no_duplicates(),
    ensures
        ({
            let d = decode_model(data)->Ok_0;
            &&& serializable(d.dim, d.dtype, d.unk_token_id, d.vocab, d.weights)
            &&& model_binary(d.dim, d.dtype, d.unk_token_id, d.vocab, d.weights) == data
        }),
{
    lemma_auto_spec_u32_to_from_le_bytes();
    let d = decode_model(data)->Ok_0;
    let n = read_u32(data, 9) as nat;
    let (ts, off) = decode_tokens(data, 13, n)->Ok_0;
    lemma_parsed_records(data, 13, n);
    assert(ts.len() <= usize::MAX);
    lemma_distinct_tokens_dense(ts);
    lemma_index_map_keys(ts);
    let m = index_map(ts);
    assert(d.vocab == m);
    // The tokens in id order are the listed tokens.
    assert(tokens_in_id_order(m) =~= ts) by {
        assert forall|i: int| 0 <= i < ts.len() implies #[trigger] key_of_id(m, i) == ts[i] by {
            assert(m.contains_key(ts[i]) && m[ts[i]] == i);
            let k = key_of_id(m, i);
            if k != ts[i] {
                assert(m[k] != m[ts[i]]);
            }
        }
    }
    // Every key's encoding fits the length field.
    assert forall|k: Seq<char>| #[trigger] m.contains_key(k) implies encode_utf8(k).len() <= u32::MAX by {
        assert(ts.contains(k));
        let i = choose|i: int| 0 <= i < ts.len() && ts[i] == k;
    }
    // The header.
    let dim = read_u32(data, 0);
    let unk = read_u32(data, 5);
    assert(spec_u32_to_le_bytes(dim) == data.subrange(0, 4));
    assert(spec_u32_to_le_bytes(unk) == data.subrange(5, 9));
    assert(spec_u32_to_le_bytes(n as u32) == data.subrange(9, 13));
    assert(d.dtype.spec_code() == data[4]);
    let header = model_header(d.dim, d.dtype, d.unk_token_id, m.dom().len());
    assert(header =~= data.subrange(0, 13));
    assert(data =~= data.subrange(0, 13) + data.subrange(13, off) + data.subrange(off, data.len() as int));
}

} // verus!
