//! Greedy longest-match-first WordPiece tokenization.
use vstd::prelude::*;
use crate::normalizer::{Normalizer, BertNormalizer};
use crate::text::{split_by, str_to_chars, lemma_split_by_step, lemma_split_by_join};
use crate::vocab::Vocab;
use crate::token_map::ids_are_dense;

verus! {

/// Turns text into token ids.
pub trait Tokenizer {
    spec fn spec_tokenize(&self, text: Seq<char>) -> Seq<usize>;

    fn tokenize(&self, text: &str) -> (res: Vec<usize>)
        ensures
            res@ == self.spec_tokenize(text@),
    ;
}

/// The vocabulary key of the piece `w[start..end]`: a piece that does not
/// start the word is looked up with the continuation prefix `##`.
pub open spec fn piece_key(w: Seq<char>, start: int, end: int) -> Seq<char> {
    if start > 0 {
        seq!['#', '#'] + w.subrange(start, end)
    } else {
        w.subrange(start, end)
    }
}

/// The largest `e` with `start < e <= end` whose piece `w[start..e]` is in
/// the vocabulary.
pub open spec fn longest_piece(vocab: Map<Seq<char>, usize>, w: Seq<char>, start: int, end: int) -> Option<int>
    decreases end - start,
{
    if end <= start {
        None
    } else if vocab.contains_key(piece_key(w, start, end)) {
        Some(end)
    } else {
        longest_piece(vocab, w, start, end - 1)
    }
}

pub proof fn lemma_longest_piece_range(vocab: Map<Seq<char>, usize>, w: Seq<char>, start: int, end: int)
    ensures
        longest_piece(vocab, w, start, end) matches Some(e) ==> start < e <= end
            && vocab.contains_key(piece_key(w, start, e)),
    decreases end - start,
{
    if end > start && !vocab.contains_key(piece_key(w, start, end)) {
        lemma_longest_piece_range(vocab, w, start, end - 1);
    }
}

/// The ids of the word `w` from position `start` on: the longest piece in
/// the vocabulary at each step; when no piece matches, the unknown id
/// stands for the rest of the word.
pub open spec fn word_pieces(vocab: Map<Seq<char>, usize>, unk: usize, w: Seq<char>, start: int) -> Seq<usize>
    decreases w.len() - start,
{
    if start < 0 || start >= w.len() {
        Seq::<usize>::empty()
    } else {
        match longest_piece(vocab, w, start, w.len() as int) {
            Some(end) => {
                proof {
                    lemma_longest_piece_range(vocab, w, start, w.len() as int);
                }
                seq![vocab[piece_key(w, start, end)]] + word_pieces(vocab, unk, w, end)
            },
            None => seq![unk],
        }
    }
}

/// The ids of a list of words, word after word.
pub open spec fn words_tokens(vocab: Map<Seq<char>, usize>, unk: usize, words: Seq<Seq<char>>) -> Seq<usize>
    decreases words.len(),
{
    if words.len() == 0 {
        Seq::<usize>::empty()
    } else {
        words_tokens(vocab, unk, words.drop_last()) + word_pieces(vocab, unk, words.last(), 0)
    }
}

/// WordPiece tokenization of an already normalized text that is split into
/// words at the characters for which `sep` holds.
pub open spec fn wordpiece(
    vocab: Map<Seq<char>, usize>,
    unk: usize,
    normalized: Seq<char>,
    sep: spec_fn(char) -> bool,
) -> Seq<usize> {
    words_tokens(vocab, unk, split_by(normalized, sep))
}


/// `id` is the unknown id or the id of some token of the vocabulary.
pub open spec fn known_or_unk(vocab: Map<Seq<char>, usize>, unk: usize, id: usize) -> bool {
    id == unk || exists|k: Seq<char>| vocab.contains_key(k) && #[trigger] vocab[k] == id
}

proof fn lemma_word_pieces_known(vocab: Map<Seq<char>, usize>, unk: usize, w: Seq<char>, start: int)
    ensures
        forall|i: int|
            0 <= i < word_pieces(vocab, unk, w, start).len() ==> known_or_unk(
                vocab,
                unk,
                #[trigger] word_pieces(vocab, unk, w, start)[i],
            ),
    decreases w.len() - start,
{
    if start >= 0 && start < w.len() {
        lemma_longest_piece_range(vocab, w, start, w.len() as int);
        match longest_piece(vocab, w, start, w.len() as int) {
            Some(end) => {
                lemma_word_pieces_known(vocab, unk, w, end);
                let key = piece_key(w, start, end);
                let rest = word_pieces(vocab, unk, w, end);
                let all = word_pieces(vocab, unk, w, start);
                assert(all == seq![vocab[key]] + rest);
                assert forall|i: int| 0 <= i < all.len() implies known_or_unk(vocab, unk, #[trigger] all[i]) by {
                    if i == 0 {
                        assert(vocab.contains_key(key) && vocab[key] == all[0]);
                    } else {
                        assert(all[i] == rest[i - 1]);
                    }
                }
            },
            None => {},
        }
    }
}

/// Every id that tokenization yields is the unknown id or the id of a
/// vocabulary token.
pub proof fn lemma_wordpiece_ids_known(
    vocab: Map<Seq<char>, usize>,
    unk: usize,
    normalized: Seq<char>,
    sep: spec_fn(char) -> bool,
)
    ensures
        forall|i: int|
            0 <= i < wordpiece(vocab, unk, normalized, sep).len() ==> known_or_unk(
                vocab,
                unk,
                #[trigger] wordpiece(vocab, unk, normalized, sep)[i],
            ),
{
    lemma_words_tokens_known(vocab, unk, split_by(normalized, sep));
}

proof fn lemma_words_tokens_known(vocab: Map<Seq<char>, usize>, unk: usize, words: Seq<Seq<char>>)
    ensures
        forall|i: int|
            0 <= i < words_tokens(vocab, unk, words).len() ==> known_or_unk(
                vocab,
                unk,
                #[trigger] words_tokens(vocab, unk, words)[i],
            ),
    decreases words.len(),
{
    if words.len() > 0 {
        lemma_words_tokens_known(vocab, unk, words.drop_last());
        lemma_word_pieces_known(vocab, unk, words.last(), 0);
        let a = words_tokens(vocab, unk, words.drop_last());
        let b = word_pieces(vocab, unk, words.last(), 0);
        let all = words_tokens(vocab, unk, words);
        assert(all == a + b);
        assert forall|i: int| 0 <= i < all.len() implies known_or_unk(vocab, unk, #[trigger] all[i]) by {
            if i < a.len() {
                assert(all[i] == a[i]);
            } else {
                assert(all[i] == b[i - a.len()]);
            }
        }
    }
}


/// With ids exactly `0 .. n` and an unknown id below `n`, every id that
/// tokenization yields is below `n`: it indexes a row of an embedding table
/// with one row per token.
pub proof fn lemma_wordpiece_ids_in_range(
    vocab: Map<Seq<char>, usize>,
    unk: usize,
    normalized: Seq<char>,
    sep: spec_fn(char) -> bool,
)
    requires
        ids_are_dense(vocab),
        unk < vocab.dom().len(),
    ensures
        forall|i: int|
            0 <= i < wordpiece(vocab, unk, normalized, sep).len() ==> #[trigger] wordpiece(
                vocab,
                unk,
                normalized,
                sep,
            )[i] < vocab.dom().len(),
{
    lemma_wordpiece_ids_known(vocab, unk, normalized, sep);
    let ids = wordpiece(vocab, unk, normalized, sep);
    assert forall|i: int| 0 <= i < ids.len() implies #[trigger] ids[i] < vocab.dom().len() by {
        assert(known_or_unk(vocab, unk, ids[i]));
        if ids[i] != unk {
            let k = choose|k: Seq<char>| vocab.contains_key(k) && #[trigger] vocab[k] == ids[i];
        }
    }
}

/// The ids of two lists of words, one after the other.
proof fn lemma_words_tokens_concat(
    vocab: Map<Seq<char>, usize>,
    unk: usize,
    a: Seq<Seq<char>>,
    b: Seq<Seq<char>>,
)
    ensures
        words_tokens(vocab, unk, a + b) == words_tokens(vocab, unk, a) + words_tokens(vocab, unk, b),
    decreases b.len(),
{
    if b.len() == 0 {
        assert(a + b =~= a);
        assert(words_tokens(vocab, unk, a) + Seq::<usize>::empty() =~= words_tokens(vocab, unk, a));
    } else {
        let b0 = b.drop_last();
        lemma_words_tokens_concat(vocab, unk, a, b0);
        assert((a + b).drop_last() =~= a + b0);
        assert((a + b).last() == b.last());
        let w = word_pieces(vocab, unk, b.last(), 0);
        assert(words_tokens(vocab, unk, a) + words_tokens(vocab, unk, b0) + w =~= words_tokens(vocab, unk, a) + (
        words_tokens(vocab, unk, b0) + w));
    }
}

/// Separators in front of a text add no ids: they only close empty words.
proof fn lemma_leading_separators(
    vocab: Map<Seq<char>, usize>,
    unk: usize,
    s: Seq<char>,
    y: Seq<char>,
    sep: spec_fn(char) -> bool,
)
    requires
        forall|i: int| 0 <= i < s.len() ==> sep(#[trigger] s[i]),
    ensures
        wordpiece(vocab, unk, s + y, sep) == wordpiece(vocab, unk, y, sep),
    decreases s.len(),
{
    if s.len() == 0 {
        assert(s + y =~= y);
    } else {
        let e = Seq::<char>::empty();
        let rest = s.subrange(1, s.len() as int);
        assert(s + y =~= e + seq![s[0]] + (rest + y));
        lemma_split_by_join(e, s[0], rest + y, sep);
        assert(split_by(e, sep) == seq![e]);
        lemma_words_tokens_concat(vocab, unk, seq![e], split_by(rest + y, sep));
        assert(seq![e].drop_last() =~= Seq::<Seq<char>>::empty());
        assert(word_pieces(vocab, unk, e, 0) =~= Seq::<usize>::empty());
        assert(seq![e].last() == e);
        assert(words_tokens(vocab, unk, Seq::<Seq<char>>::empty()) =~= Seq::<usize>::empty());
        assert(words_tokens(vocab, unk, seq![e]) =~= Seq::<usize>::empty());
        assert forall|i: int| 0 <= i < rest.len() implies sep(#[trigger] rest[i]) by {
            assert(rest[i] == s[i + 1]);
        }
        lemma_leading_separators(vocab, unk, rest, y, sep);
        assert(Seq::<usize>::empty() + wordpiece(vocab, unk, y, sep) =~= wordpiece(vocab, unk, y, sep));
    }
}

/// Joining two texts with one or more separators between them joins their
/// ids: the ids of `x`, then those of `y`.
pub proof fn lemma_wordpiece_join(
    vocab: Map<Seq<char>, usize>,
    unk: usize,
    x: Seq<char>,
    s: Seq<char>,
    y: Seq<char>,
    sep: spec_fn(char) -> bool,
)
    requires
        s.len() > 0,
        forall|i: int| 0 <= i < s.len() ==> sep(#[trigger] s[i]),
    ensures
        wordpiece(vocab, unk, x + s + y, sep) == wordpiece(vocab, unk, x, sep) + wordpiece(vocab, unk, y, sep),
{
    let rest = s.subrange(1, s.len() as int);
    assert(x + s + y =~= x + seq![s[0]] + (rest + y));
    lemma_split_by_join(x, s[0], rest + y, sep);
    lemma_words_tokens_concat(vocab, unk, split_by(x, sep), split_by(rest + y, sep));
    assert forall|i: int| 0 <= i < rest.len() implies sep(#[trigger] rest[i]) by {
        assert(rest[i] == s[i + 1]);
    }
    lemma_leading_separators(vocab, unk, rest, y, sep);
}

/// What the search for the longest piece finds: the largest `m <= end`
/// whose piece is in the vocabulary, or nothing when no piece is.
proof fn lemma_longest_piece_is_longest(vocab: Map<Seq<char>, usize>, w: Seq<char>, start: int, end: int)
    ensures
        longest_piece(vocab, w, start, end) matches Some(m) ==> start < m <= end && vocab.contains_key(
            piece_key(w, start, m),
        ) && (forall|f: int| m < f <= end ==> !vocab.contains_key(#[trigger] piece_key(w, start, f))),
        longest_piece(vocab, w, start, end) is None ==> (forall|f: int|
            start < f <= end ==> !vocab.contains_key(#[trigger] piece_key(w, start, f))),
    decreases end - start,
{
    if end > start && !vocab.contains_key(piece_key(w, start, end)) {
        lemma_longest_piece_is_longest(vocab, w, start, end - 1);
    }
}

/// Greedy longest match: when some piece `w[start..e]` is in the
/// vocabulary (looked up with `##` in front when it does not start the
/// word), the first id of the word from `start` is that of the longest such
/// piece `w[start..m]`, and the ids of the rest of the word from `m` follow.
pub proof fn lemma_word_pieces_longest_match(
    vocab: Map<Seq<char>, usize>,
    unk: usize,
    w: Seq<char>,
    start: int,
    e: int,
)
    requires
        0 <= start < e <= w.len(),
        vocab.contains_key(
            (if start > 0 {
                seq!['#', '#'] + w.subrange(start, e)
            } else {
                w.subrange(start, e)
            }),
        ),
    ensures
        exists|m: int|
            #![trigger w.subrange(start, m)]
            e <= m <= w.len() && vocab.contains_key(
                (if start > 0 {
                    seq!['#', '#'] + w.subrange(start, m)
                } else {
                    w.subrange(start, m)
                }),
            ) && (forall|f: int|
                #![trigger w.subrange(start, f)]
                m < f <= w.len() ==> !vocab.contains_key(
                    (if start > 0 {
                        seq!['#', '#'] + w.subrange(start, f)
                    } else {
                        w.subrange(start, f)
                    }),
                )) && word_pieces(vocab, unk, w, start) == seq![
                vocab[(if start > 0 {
                    seq!['#', '#'] + w.subrange(start, m)
                } else {
                    w.subrange(start, m)
                })],
            ] + word_pieces(vocab, unk, w, m),
{
    let len = w.len() as int;
    lemma_longest_piece_is_longest(vocab, w, start, len);
    assert(piece_key(w, start, e) == (if start > 0 {
        seq!['#', '#'] + w.subrange(start, e)
    } else {
        w.subrange(start, e)
    }));
    match longest_piece(vocab, w, start, len) {
        Some(m) => {
            if m < e {
                assert(!vocab.contains_key(piece_key(w, start, e)));
            }
            assert forall|f: int| #![trigger w.subrange(start, f)] m < f <= len implies !vocab.contains_key(
                (if start > 0 {
                    seq!['#', '#'] + w.subrange(start, f)
                } else {
                    w.subrange(start, f)
                }),
            ) by {
                assert(!vocab.contains_key(piece_key(w, start, f)));
            }
            assert(word_pieces(vocab, unk, w, start) == seq![vocab[piece_key(w, start, m)]] + word_pieces(
                vocab,
                unk,
                w,
                m,
            ));
            assert(w.subrange(start, m) == w.subrange(start, m));
        },
        None => {
            assert(!vocab.contains_key(piece_key(w, start, e)));
        },
    }
}

/// The unknown id stands for the whole rest of a word: when no piece
/// `w[start..e]` is in the vocabulary (with `##` in front when it does not
/// start the word), the ids of the word from `start` are the unknown id alone.
pub proof fn lemma_word_pieces_unknown_rest(vocab: Map<Seq<char>, usize>, unk: usize, w: Seq<char>, start: int)
    requires
        0 <= start < w.len(),
        forall|e: int|
            #![trigger w.subrange(start, e)]
            start < e <= w.len() ==> !vocab.contains_key(
                (if start > 0 {
                    seq!['#', '#'] + w.subrange(start, e)
                } else {
                    w.subrange(start, e)
                }),
            ),
    ensures
        word_pieces(vocab, unk, w, start) == seq![unk],
{
    let len = w.len() as int;
    lemma_longest_piece_is_longest(vocab, w, start, len);
    match longest_piece(vocab, w, start, len) {
        Some(m) => {
            assert(w.subrange(start, m) == w.subrange(start, m));
            assert(!vocab.contains_key(piece_key(w, start, m)));
        },
        None => {},
    }
}

/// A whole word that is in the vocabulary is one token.
pub proof fn lemma_whole_word_in_vocab(vocab: Map<Seq<char>, usize>, unk: usize, w: Seq<char>)
    requires
        w.len() > 0,
        vocab.contains_key(w),
    ensures
        word_pieces(vocab, unk, w, 0) == seq![vocab[w]],
{
    assert(piece_key(w, 0, w.len() as int) =~= w);
    assert(word_pieces(vocab, unk, w, w.len() as int) =~= Seq::<usize>::empty());
    assert(seq![vocab[w]] + Seq::<usize>::empty() =~= seq![vocab[w]]);
}

/// A word that no vocabulary piece starts is the unknown id alone.
pub proof fn lemma_unmatched_word_is_unk(vocab: Map<Seq<char>, usize>, unk: usize, w: Seq<char>)
    requires
        w.len() > 0,
        forall|e: int| 0 < e <= w.len() ==> !vocab.contains_key(#[trigger] w.subrange(0, e)),
    ensures
        word_pieces(vocab, unk, w, 0) == seq![unk],
{
    lemma_no_piece(vocab, w, w.len() as int);
}

proof fn lemma_no_piece(vocab: Map<Seq<char>, usize>, w: Seq<char>, end: int)
    requires
        0 <= end <= w.len(),
        forall|e: int| 0 < e <= w.len() ==> !vocab.contains_key(#[trigger] w.subrange(0, e)),
    ensures
        longest_piece(vocab, w, 0, end) is None,
    decreases end,
{
    if end > 0 {
        assert(piece_key(w, 0, end) == w.subrange(0, end));
        lemma_no_piece(vocab, w, end - 1);
    }
}

pub struct WordPieceTokenizer<N: Normalizer> {
    vocab: Vocab,
    unk_token_id: usize,
    normalizer: N,
}

impl<N: Normalizer> WordPieceTokenizer<N> {
    #[verifier::type_invariant]
    spec fn inv(self) -> bool {
        self.vocab.wf()
    }

    pub closed spec fn spec_vocab(self) -> Map<Seq<char>, usize> {
        self.vocab@
    }

    pub closed spec fn spec_unk_token_id(self) -> usize {
        self.unk_token_id
    }

    pub closed spec fn spec_normalizer(self) -> N {
        self.normalizer
    }

    pub fn new(vocab: Vocab, unk_token_id: usize, normalizer: N) -> (res: Self)
        requires
            vocab.wf(),
        ensures
            res.spec_vocab() == vocab@,
            res.spec_unk_token_id() == unk_token_id,
            res.spec_normalizer() == normalizer,
    {
        Self { vocab, unk_token_id, normalizer }
    }

    /// The ids of `text`: the text is normalized, split into words where the
    /// normalizer's split predicate holds, and each word is cut into pieces.
    pub fn tokenize(&self, text: &str) -> (res: Vec<usize>)
        ensures
            res@ == wordpiece(
                self.spec_vocab(),
                self.spec_unk_token_id(),
                self.spec_normalizer().spec_normalize(text@),
                |c: char| self.spec_normalizer().spec_split(c),
            ),
    {
        proof {
            use_type_invariant(self);
        }
        let normalized = self.normalizer.normalize(text);
        let chars = str_to_chars(normalized.as_str());
        let ghost sep = |c: char| self.normalizer.spec_split(c);
        let ghost vocab = self.vocab@;
        let ghost unk = self.unk_token_id;
        let mut output: Vec<usize> = Vec::new();
        let mut word: Vec<char> = Vec::new();
        let ghost mut done: Seq<Seq<char>> = Seq::empty();
        assert(chars@.take(0) =~= Seq::<char>::empty());
        assert(done.push(word@) =~= seq![Seq::<char>::empty()]);
        let mut i: usize = 0;
        while i < chars.len()
            invariant
                self.vocab.wf(),
                vocab == self.vocab@,
                unk == self.unk_token_id,
                sep == |c: char| self.normalizer.spec_split(c),
                i <= chars.len(),
                split_by(chars@.take(i as int), sep) == done.push(word@),
                output@ == words_tokens(vocab, unk, done),
            decreases chars.len() - i,
        {
            proof {
                lemma_split_by_step(chars@, i as int, sep);
            }
            let c = chars[i];
            if self.normalizer.split_fn(c) {
                let ghost w = word@;
                self.tokenize_word(word.as_slice(), &mut output);
                word = Vec::new();
                proof {
                    assert(done.push(w).drop_last() =~= done);
                    done = done.push(w);
                }
            } else {
                let ghost before = word@;
                word.push(c);
                proof {
                    assert(done.push(word@) =~= done.push(before).update(done.len() as int, before.push(c)));
                }
            }
            i += 1;
        }
        assert(chars@.take(chars.len() as int) =~= chars@);
        let ghost w = word@;
        self.tokenize_word(word.as_slice(), &mut output);
        proof {
            assert(done.push(w).drop_last() =~= done);
        }
        output
    }

    /// Appends the ids of one word: greedy longest-match-first pieces, or the
    /// unknown id for the rest of the word when no piece matches.
    pub fn tokenize_word(&self, word: &[char], output: &mut Vec<usize>)
        ensures
            final(output)@ == old(output)@ + word_pieces(self.spec_vocab(), self.spec_unk_token_id(), word@, 0),
    {
        proof {
            use_type_invariant(self);
        }
        let ghost vocab = self.vocab@;
        let ghost unk = self.unk_token_id;
        let ghost start_output = output@;
        let len = word.len();
        let mut start: usize = 0;
        assert(output@ + word_pieces(vocab, unk, word@, 0) =~= start_output + word_pieces(vocab, unk, word@, 0));
        while start < len
            invariant_except_break
                output@ + word_pieces(vocab, unk, word@, start as int) == start_output + word_pieces(vocab, unk, word@, 0),
            invariant
                self.vocab.wf(),
                vocab == self.vocab@,
                unk == self.unk_token_id,
                len == word@.len(),
                start <= len,
            ensures
                output@ == start_output + word_pieces(vocab, unk, word@, 0),
            decreases len - start,
        {
            let mut end: usize = len;
            let mut matched: Option<usize> = None;
            while start < end
                invariant_except_break
                    matched is None,
                    longest_piece(vocab, word@, start as int, len as int) == longest_piece(vocab, word@, start as int, end as int),
                invariant
                    self.vocab.wf(),
                    vocab == self.vocab@,
                    len == word@.len(),
                    start < len,
                    start <= end <= len,
                ensures
                    match matched {
                        Some(id) => start < end && longest_piece(vocab, word@, start as int, len as int) == Some(end as int)
                            && vocab.contains_key(piece_key(word@, start as int, end as int))
                            && id == vocab[piece_key(word@, start as int, end as int)],
                        None => longest_piece(vocab, word@, start as int, len as int) is None,
                    },
                decreases end,
            {
                let key = piece_key_chars(word, start, end);
                match self.vocab.get_chars_to_id(key.as_slice()) {
                    Some(id) => {
                        matched = Some(id);
                        break;
                    },
                    None => {},
                }
                end -= 1;
            }
            match matched {
                Some(id) => {
                    let ghost before = output@;
                    output.push(id);
                    proof {
                        assert(word_pieces(vocab, unk, word@, start as int) == seq![id] + word_pieces(vocab, unk, word@, end as int));
                        assert(before + word_pieces(vocab, unk, word@, start as int) =~= output@ + word_pieces(vocab, unk, word@, end as int));
                    }
                    start = end;
                },
                None => {
                    let ghost before = output@;
                    output.push(self.unk_token_id);
                    proof {
                        assert(word_pieces(vocab, unk, word@, start as int) == seq![unk]);
                        assert(output@ =~= before + word_pieces(vocab, unk, word@, start as int));
                    }
                    break;
                },
            }
        }
        proof {
            if start >= len {
                assert(word_pieces(vocab, unk, word@, start as int) =~= Seq::<usize>::empty());
                assert(output@ =~= output@ + word_pieces(vocab, unk, word@, start as int));
            }
        }
    }
}

/// With a BERT normalizer that neither strips accents nor lowercases,
/// tokenizing two texts joined by a space gives the ids of the first text
/// followed by those of the second.
pub proof fn lemma_tokenize_join(tk: WordPieceTokenizer<BertNormalizer>, a: Seq<char>, b: Seq<char>)
    requires
        !tk.spec_normalizer().strips_accents(),
        !tk.spec_normalizer().lowercase,
    ensures
        tk.spec_tokenize(a + seq![' '] + b) == tk.spec_tokenize(a) + tk.spec_tokenize(b),
{
    let n = tk.spec_normalizer();
    n.lemma_normalize_join(a, b);
    let sep = |c: char| tk.spec_normalizer().spec_split(c);
    let spaces = seq![' ', ' ', ' '];
    assert((' ' as u32) == 0x20);
    assert forall|i: int| 0 <= i < spaces.len() implies sep(#[trigger] spaces[i]) by {
        assert(spaces[i] == ' ');
    }
    lemma_wordpiece_join(
        tk.spec_vocab(),
        tk.spec_unk_token_id(),
        n.spec_normalize_text(a),
        spaces,
        n.spec_normalize_text(b),
        sep,
    );
}

/// The characters of `piece_key(w, start, end)`.
fn piece_key_chars(w: &[char], start: usize, end: usize) -> (key: Vec<char>)
    requires
        start <= end <= w@.len(),
    ensures
        key@ == piece_key(w@, start as int, end as int),
{
    let mut key: Vec<char> = Vec::new();
    if start > 0 {
        key.push('#');
        key.push('#');
    }
    let ghost prefix = key@;
    assert(prefix == (if start > 0 { seq!['#', '#'] } else { Seq::<char>::empty() }));
    let mut k: usize = start;
    while k < end
        invariant
            start <= k <= end,
            end <= w@.len(),
            key@ == prefix + w@.subrange(start as int, k as int),
        decreases end - k,
    {
        key.push(w[k]);
        k += 1;
        assert(key@ =~= prefix + w@.subrange(start as int, k as int));
    }
    assert(key@ =~= piece_key(w@, start as int, end as int));
    key
}

impl<N: Normalizer> Tokenizer for WordPieceTokenizer<N> {
    open spec fn spec_tokenize(&self, text: Seq<char>) -> Seq<usize> {
        wordpiece(
            self.spec_vocab(),
            self.spec_unk_token_id(),
            self.spec_normalizer().spec_normalize(text),
            |c: char| self.spec_normalizer().spec_split(c),
        )
    }

    fn tokenize(&self, text: &str) -> (res: Vec<usize>) {
        WordPieceTokenizer::tokenize(self, text)
    }
}

} // verus!
