//! The vocabulary: a map from tokens to ids, with the id that stands for
//! unknown words.
use vstd::prelude::*;
use crate::text::{split_by, str_to_chars, chars_to_string, lemma_split_by_step};
use crate::token_map::{TokenMap, ids_are_dense, id_in_use};

verus! {

/// The non-empty pieces of `p`, in order.
pub open spec fn nonempty_pieces(p: Seq<Seq<char>>) -> Seq<Seq<char>>
    decreases p.len(),
{
    if p.len() == 0 {
        Seq::<Seq<char>>::empty()
    } else if p.last().len() > 0 {
        nonempty_pieces(p.drop_last()).push(p.last())
    } else {
        nonempty_pieces(p.drop_last())
    }
}

/// Each token mapped to its position; a token listed twice keeps its last position.
pub open spec fn index_map(tokens: Seq<Seq<char>>) -> Map<Seq<char>, usize>
    decreases tokens.len(),
{
    if tokens.len() == 0 {
        Map::<Seq<char>, usize>::empty()
    } else {
        index_map(tokens.drop_last()).insert(tokens.last(), (tokens.len() - 1) as usize)
    }
}

pub open spec fn is_newline(c: char) -> bool {
    c == '\n'
}

/// The non-empty lines of a newline-delimited text.
pub open spec fn vocab_lines(data: Seq<char>) -> Seq<Seq<char>> {
    nonempty_pieces(split_by(data, |c: char| is_newline(c)))
}

/// A token list, one token per non-empty line, with ids counted over those lines.
pub open spec fn vocab_from_lines(data: Seq<char>) -> Map<Seq<char>, usize> {
    index_map(vocab_lines(data))
}

/// The id of `token` in `m`, if any.
pub open spec fn lookup(m: Map<Seq<char>, usize>, token: Seq<char>) -> Option<usize> {
    if m.contains_key(token) {
        Some(m[token])
    } else {
        None
    }
}

/// `r` is an answer of `get_id_to_token(id)` on the map `m`: a token with
/// that id, or nothing when no token has it.
pub open spec fn token_for_id(m: Map<Seq<char>, usize>, id: usize, r: Option<Seq<char>>) -> bool {
    match r {
        Some(t) => m.contains_key(t) && m[t] == id,
        None => forall|k: Seq<char>| #[trigger] m.contains_key(k) ==> m[k] != id,
    }
}

/// The characters of an optional string.
pub open spec fn string_option_view(r: Option<String>) -> Option<Seq<char>> {
    match r {
        Some(t) => Some(t@),
        None => None,
    }
}

/// A write then a read: after inserting `k` with id `v`, looking up `k`
/// gives `v`, and every other token keeps its id or its absence.
pub proof fn lemma_lookup_after_insert(m: Map<Seq<char>, usize>, k: Seq<char>, v: usize, other: Seq<char>)
    ensures
        lookup(m.insert(k, v), k) == Some(v),
        other != k ==> lookup(m.insert(k, v), other) == lookup(m, other),
{
}

/// The keys of `index_map(ts)` are the tokens of `ts`.
pub proof fn lemma_index_map_keys(ts: Seq<Seq<char>>)
    ensures
        index_map(ts).dom().finite(),
        forall|k: Seq<char>| #[trigger] index_map(ts).contains_key(k) <==> ts.contains(k),
        forall|k: Seq<char>| #[trigger] index_map(ts).contains_key(k) ==> index_map(ts)[k] < ts.len(),
    decreases ts.len(),
{
    if ts.len() > 0 {
        let init = ts.drop_last();
        lemma_index_map_keys(init);
        assert forall|k: Seq<char>| #[trigger] index_map(ts).contains_key(k) <==> ts.contains(k) by {
            if ts.contains(k) && k != ts.last() {
                let i = choose|i: int| 0 <= i < ts.len() && ts[i] == k;
                assert(init[i] == k);
            }
            if init.contains(k) {
                let i = choose|i: int| 0 <= i < init.len() && init[i] == k;
                assert(ts[i] == k);
            }
            assert(ts[ts.len() - 1] == ts.last());
        }
    }
}

/// Tokens listed without repetition get the ids `0 .. n`, one each: the map
/// has `n` keys, the token at position `i` has id `i`, and the ids are dense.
pub proof fn lemma_distinct_tokens_dense(ts: Seq<Seq<char>>)
    requires
        ts.no_duplicates(),
        ts.len() <= usize::MAX,
    ensures
        index_map(ts).dom().finite(),
        index_map(ts).dom().len() == ts.len(),
        forall|i: int| 0 <= i < ts.len() ==> index_map(ts).contains_key(#[trigger] ts[i]) && index_map(ts)[ts[i]] == i,
        ids_are_dense(index_map(ts)),
    decreases ts.len(),
{
    lemma_index_map_keys(ts);
    if ts.len() > 0 {
        let init = ts.drop_last();
        let last = ts.last();
        assert(init.no_duplicates()) by {
            assert forall|i: int, j: int| 0 <= i < init.len() && 0 <= j < init.len() && i != j implies init[i] != init[j] by {
                assert(ts[i] == init[i] && ts[j] == init[j]);
            }
        }
        lemma_distinct_tokens_dense(init);
        lemma_index_map_keys(init);
        assert(!init.contains(last)) by {
            if init.contains(last) {
                let i = choose|i: int| 0 <= i < init.len() && init[i] == last;
                assert(ts[i] == ts[ts.len() - 1]);
            }
        }
        let m0 = index_map(init);
        let m = index_map(ts);
        assert(m == m0.insert(last, (ts.len() - 1) as usize));
        assert(m.dom() =~= m0.dom().insert(last));
        assert forall|i: int| 0 <= i < ts.len() implies m.contains_key(#[trigger] ts[i]) && m[ts[i]] == i by {
            if i < ts.len() - 1 {
                assert(init[i] == ts[i]);
                assert(m0.contains_key(init[i]) && m0[init[i]] == i);
                assert(ts[ts.len() - 1] == last);
                assert(ts[i] != last);
            } else {
                assert(ts[i] == last);
            }
        }
        assert forall|i: int| 0 <= i < m.dom().len() implies #[trigger] id_in_use(m, i) by {
            assert(m.contains_key(ts[i]) && m[ts[i]] == i);
        }
        assert forall|k1: Seq<char>, k2: Seq<char>|
            #[trigger] m.contains_key(k1) && #[trigger] m.contains_key(k2) && k1 != k2 implies m[k1] != m[k2] by {
            let i1 = choose|i: int| 0 <= i < ts.len() && ts[i] == k1;
            let i2 = choose|i: int| 0 <= i < ts.len() && ts[i] == k2;
            assert(ts.contains(k1) && ts.contains(k2));
        }
    }
}

/// A vocabulary text whose non-empty lines are distinct gives every line its
/// position as id, with ids exactly `0 .. number of lines`.
pub proof fn lemma_distinct_lines_vocab_dense(data: Seq<char>)
    requires
        vocab_lines(data).no_duplicates(),
        vocab_lines(data).len() <= usize::MAX,
    ensures
        vocab_from_lines(data).dom().len() == vocab_lines(data).len(),
        ids_are_dense(vocab_from_lines(data)),
        forall|i: int|
            0 <= i < vocab_lines(data).len() ==> vocab_from_lines(data)[#[trigger] vocab_lines(data)[i]] == i,
{
    lemma_distinct_tokens_dense(vocab_lines(data));
}

/// No two tokens of `m` share an id.
pub open spec fn ids_are_distinct(m: Map<Seq<char>, usize>) -> bool {
    forall|k1: Seq<char>, k2: Seq<char>|
        #[trigger] m.contains_key(k1) && #[trigger] m.contains_key(k2) && k1 != k2 ==> m[k1] != m[k2]
}

/// When ids are not shared, the token found for the id of `t` is `t` itself.
pub proof fn lemma_id_to_token_inverse(m: Map<Seq<char>, usize>, t: Seq<char>, r: Option<Seq<char>>)
    requires
        ids_are_distinct(m),
        m.contains_key(t),
        token_for_id(m, m[t], r),
    ensures
        r == Some(t),
{
    match r {
        Some(t2) => {
            if t2 != t {
                assert(m[t2] != m[t]);
            }
        },
        None => {
            assert(m[t] != m[t]);
        },
    }
}

#[derive(Debug, Clone)]
pub struct Vocab {
    pub vocab: TokenMap,
    pub unk_token_id: usize,
}

impl View for Vocab {
    type V = Map<Seq<char>, usize>;

    open spec fn view(&self) -> Map<Seq<char>, usize> {
        self.vocab@
    }
}

impl Vocab {
    pub open spec fn wf(&self) -> bool {
        self.vocab.wf()
    }

    pub fn new(vocab: TokenMap, unk_token_id: usize) -> (res: Self)
        ensures
            res.vocab == vocab,
            res.unk_token_id == unk_token_id,
    {
        Self { vocab, unk_token_id }
    }

    /// One token per non-empty line of `data`; a token's id is the number of
    /// non-empty lines before it (for a repeated token, before its last line).
    pub fn from_newline_deliminated_string(data: &str, unk_token_id: usize) -> (res: Self)
        ensures
            res.wf(),
            res@ == vocab_from_lines(data@),
            res.unk_token_id == unk_token_id,
    {
        let chars = str_to_chars(data);
        let mut map = TokenMap::with_capacity(chars.len() / 8);
        let mut cur: Vec<char> = Vec::new();
        let mut idx: usize = 0;
        let ghost mut done: Seq<Seq<char>> = Seq::empty();
        let ghost sep = |c: char| is_newline(c);
        assert(chars@.take(0) =~= Seq::<char>::empty());
        assert(done.push(cur@) =~= seq![Seq::<char>::empty()]);
        let mut i: usize = 0;
        while i < chars.len()
            invariant
                chars@ == data@,
                sep == |c: char| is_newline(c),
                i <= chars.len(),
                split_by(chars@.take(i as int), sep) == done.push(cur@),
                map.wf(),
                map@ == index_map(nonempty_pieces(done)),
                nonempty_pieces(done).len() == idx,
                idx + cur@.len() <= i,
                map@.dom().len() <= idx,
            decreases chars.len() - i,
        {
            proof {
                lemma_split_by_step(chars@, i as int, sep);
                map.lemma_dom_finite();
            }
            let c = chars[i];
            if c == '\n' {
                let ghost line = cur@;
                if cur.len() > 0 {
                    let mut line_vec: Vec<char> = Vec::new();
                    std::mem::swap(&mut line_vec, &mut cur);
                    map.insert(line_vec, idx);
                    idx += 1;
                } else {
                    cur = Vec::new();
                }
                proof {
                    assert(done.push(line).drop_last() =~= done);
                    done = done.push(line);
                    assert(nonempty_pieces(done).len() == idx);
                    if line.len() > 0 {
                        assert(nonempty_pieces(done).drop_last() =~= nonempty_pieces(done.drop_last()));
                    }
                }
            } else {
                let ghost before = cur@;
                cur.push(c);
                proof {
                    assert(done.push(cur@) =~= done.push(before).update(
                        done.len() as int,
                        before.push(c),
                    ));
                }
            }
            i += 1;
        }
        assert(chars@.take(chars.len() as int) =~= chars@);
        let ghost line = cur@;
        proof {
            map.lemma_dom_finite();
            assert(done.push(line).drop_last() =~= done);
        }
        if cur.len() > 0 {
            map.insert(cur, idx);
            proof {
                assert(nonempty_pieces(done.push(line)).drop_last() =~= nonempty_pieces(done));
            }
        }
        Self { vocab: map, unk_token_id }
    }

    /// The id of a token given as characters.
    pub fn get_chars_to_id(&self, token: &[char]) -> (r: Option<usize>)
        requires
            self.wf(),
        ensures
            r == lookup(self@, token@),
    {
        self.vocab.get(token)
    }

    /// The id of `token`, if it is in the vocabulary.
    pub fn get_token_to_id(&self, token: &str) -> (r: Option<usize>)
        requires
            self.wf(),
        ensures
            r == lookup(self@, token@),
    {
        let chars = str_to_chars(token);
        self.vocab.get(chars.as_slice())
    }

    /// A token whose id is `id`, if there is one.
    pub fn get_id_to_token(&self, id: usize) -> (r: Option<String>)
        requires
            self.wf(),
        ensures
            token_for_id(self@, id, string_option_view(r)),
    {
        match self.vocab.key_with_value(id) {
            Some(k) => Some(chars_to_string(k.as_slice())),
            None => None,
        }
    }
}

} // verus!
