//! Text normalization before tokenization.
use vstd::prelude::*;
use crate::text::{str_to_chars, chars_to_string};
use crate::unicode::{
    unicode_is_other, unicode_is_punctuation, unicode_is_mark_nonspacing, unicode_is_white_space,
    unicode_lowercase, unicode_nfd, is_other, is_punctuation, is_mark_nonspacing, is_white_space,
    lowercase, nfd,
};

verus! {

/// Rewrites text before it is split into words, and says where words end.
pub trait Normalizer {
    spec fn spec_normalize(&self, text: Seq<char>) -> Seq<char>;

    spec fn spec_split(&self, c: char) -> bool;

    fn normalize(&self, text: &str) -> (res: String)
        ensures
            res@ == self.spec_normalize(text@),
    ;

    fn split_fn(&self, c: char) -> (res: bool)
        ensures
            res == self.spec_split(c),
    ;
}


/// `c` counts as whitespace: tab, newline, carriage return, or a `White_Space` character.
pub open spec fn spec_is_whitespace(c: char) -> bool {
    c == '\t' || c == '\n' || c == '\r' || unicode_is_white_space(c)
}

/// `c` counts as a control character: in the "Other" categories, except
/// tab, newline and carriage return (which count as whitespace).
pub open spec fn spec_is_control(c: char) -> bool {
    !(c == '\t' || c == '\n' || c == '\r') && unicode_is_other(c)
}

/// `c` is in one of the CJK ideograph blocks.
pub open spec fn spec_is_chinese_char(c: char) -> bool {
    let v = c as u32;
    (0x4E00 <= v <= 0x9FFF) || (0x3400 <= v <= 0x4DBF) || (0x20000 <= v <= 0x2A6DF) || (0x2A700
        <= v <= 0x2B73F) || (0x2B740 <= v <= 0x2B81F) || (0x2B920 <= v <= 0x2CEAF) || (0xF900 <= v
        <= 0xFAFF) || (0x2F800 <= v <= 0x2FA1F)
}

/// `c` is ASCII whitespace: space, tab, line feed, form feed or carriage return.
pub open spec fn spec_is_ascii_whitespace(c: char) -> bool {
    c == ' ' || c == '\t' || c == '\n' || c == '\x0C' || c == '\r'
}

/// Cleaning drops NUL, the replacement character U+FFFD and control characters.
pub open spec fn dropped_by_cleaning(c: char) -> bool {
    c as u32 == 0 || c as u32 == 0xFFFD || spec_is_control(c)
}

/// Cleaning: drop NUL, U+FFFD and control characters; turn whitespace into `' '`.
pub open spec fn clean_text(s: Seq<char>) -> Seq<char>
    decreases s.len(),
{
    if s.len() == 0 {
        Seq::<char>::empty()
    } else if dropped_by_cleaning(s.last()) {
        clean_text(s.drop_last())
    } else if spec_is_whitespace(s.last()) {
        clean_text(s.drop_last()).push(' ')
    } else {
        clean_text(s.drop_last()).push(s.last())
    }
}

/// Cleaning keeps `c`.
pub open spec fn kept_by_cleaning(c: char) -> bool {
    !dropped_by_cleaning(c)
}

/// Cleaning turns whitespace into `' '`.
pub open spec fn space_for_whitespace(c: char) -> char {
    if spec_is_whitespace(c) {
        ' '
    } else {
        c
    }
}

/// Each character for which `p` holds, with a space on either side.
pub open spec fn pad_where(s: Seq<char>, p: spec_fn(char) -> bool) -> Seq<char>
    decreases s.len(),
{
    if s.len() == 0 {
        Seq::<char>::empty()
    } else if p(s.last()) {
        pad_where(s.drop_last(), p) + seq![' ', s.last(), ' ']
    } else {
        pad_where(s.drop_last(), p).push(s.last())
    }
}

/// Spaces around CJK ideographs.
pub open spec fn pad_chinese_chars(s: Seq<char>) -> Seq<char> {
    pad_where(s, |c: char| spec_is_chinese_char(c))
}

/// Punctuation and ASCII whitespace get a space on either side.
pub open spec fn is_bert_punct(c: char) -> bool {
    unicode_is_punctuation(c) || spec_is_ascii_whitespace(c)
}

/// Spaces around punctuation and ASCII whitespace.
pub open spec fn pad_punctuation(s: Seq<char>) -> Seq<char> {
    pad_where(s, |c: char| is_bert_punct(c))
}

/// The characters of `s` that are not non-spacing marks.
pub open spec fn drop_nonspacing_marks(s: Seq<char>) -> Seq<char>
    decreases s.len(),
{
    if s.len() == 0 {
        Seq::<char>::empty()
    } else if unicode_is_mark_nonspacing(s.last()) {
        drop_nonspacing_marks(s.drop_last())
    } else {
        drop_nonspacing_marks(s.drop_last()).push(s.last())
    }
}

/// Accent stripping: canonical decomposition, then dropping the non-spacing marks.
pub open spec fn strip_accents_of(s: Seq<char>) -> Seq<char> {
    drop_nonspacing_marks(unicode_nfd(s))
}


/// After cleaning, every character is a space or a character of the input
/// that is neither whitespace nor dropped by cleaning; the text gets no longer.
pub proof fn lemma_clean_text_chars(s: Seq<char>)
    ensures
        clean_text(s).len() <= s.len(),
        forall|i: int|
            0 <= i < clean_text(s).len() ==> #[trigger] clean_text(s)[i] == ' ' || (s.contains(
                clean_text(s)[i],
            ) && !spec_is_whitespace(clean_text(s)[i]) && !dropped_by_cleaning(clean_text(s)[i])),
    decreases s.len(),
{
    if s.len() > 0 {
        let init = s.drop_last();
        lemma_clean_text_chars(init);
        let r = clean_text(s);
        let r0 = clean_text(init);
        assert forall|i: int| 0 <= i < r.len() implies #[trigger] r[i] == ' ' || (s.contains(r[i])
            && !spec_is_whitespace(r[i]) && !dropped_by_cleaning(r[i])) by {
            if i < r0.len() {
                assert(r[i] == r0[i]);
                if init.contains(r0[i]) {
                    let j = choose|j: int| 0 <= j < init.len() && init[j] == r0[i];
                    assert(s[j] == r0[i]);
                }
            } else {
                assert(s[s.len() - 1] == s.last());
            }
        }
    }
}

/// Cleaning works character by character: cleaning two texts joined is
/// joining their cleanings.
pub proof fn lemma_clean_text_concat(x: Seq<char>, y: Seq<char>)
    ensures
        clean_text(x + y) == clean_text(x) + clean_text(y),
    decreases y.len(),
{
    if y.len() == 0 {
        assert(x + y =~= x);
        assert(clean_text(x) + Seq::<char>::empty() =~= clean_text(x));
    } else {
        lemma_clean_text_concat(x, y.drop_last());
        assert((x + y).drop_last() =~= x + y.drop_last());
        assert((x + y).last() == y.last());
        let a = clean_text(x);
        let b = clean_text(y.drop_last());
        assert((a + b).push(' ') =~= a + b.push(' '));
        assert((a + b).push(y.last()) =~= a + b.push(y.last()));
    }
}

/// Padding works character by character: padding two texts joined is
/// joining their paddings.
pub proof fn lemma_pad_where_concat(x: Seq<char>, y: Seq<char>, p: spec_fn(char) -> bool)
    ensures
        pad_where(x + y, p) == pad_where(x, p) + pad_where(y, p),
    decreases y.len(),
{
    if y.len() == 0 {
        assert(x + y =~= x);
        assert(pad_where(x, p) + Seq::<char>::empty() =~= pad_where(x, p));
    } else {
        lemma_pad_where_concat(x, y.drop_last(), p);
        assert((x + y).drop_last() =~= x + y.drop_last());
        assert((x + y).last() == y.last());
        let a = pad_where(x, p);
        let b = pad_where(y.drop_last(), p);
        assert(a + b + seq![' ', y.last(), ' '] =~= a + (b + seq![' ', y.last(), ' ']));
        assert((a + b).push(y.last()) =~= a + b.push(y.last()));
    }
}

/// Padding a text with `c` in it: the padding of what comes before `c`,
/// the padding of `c`, then the padding of what comes after.
proof fn lemma_pad_where_around(x: Seq<char>, c: char, y: Seq<char>, p: spec_fn(char) -> bool)
    ensures
        pad_where(x + seq![c] + y, p) == pad_where(x, p) + (if p(c) { seq![' ', c, ' '] } else { seq![c] })
            + pad_where(y, p),
{
    lemma_pad_where_concat(x + seq![c], y, p);
    lemma_pad_where_concat(x, seq![c], p);
    assert(seq![c].drop_last() =~= Seq::<char>::empty());
    assert(seq![c].last() == c);
    assert(pad_where(Seq::<char>::empty(), p) =~= Seq::<char>::empty());
    assert(Seq::<char>::empty() + seq![' ', c, ' '] =~= seq![' ', c, ' ']);
    assert(Seq::<char>::empty().push(c) =~= seq![c]);
}

/// Padding only adds spaces: every character of the result is a space or a
/// character of the input.
proof fn lemma_pad_where_chars(s: Seq<char>, p: spec_fn(char) -> bool)
    ensures
        forall|i: int|
            0 <= i < pad_where(s, p).len() ==> #[trigger] pad_where(s, p)[i] == ' ' || s.contains(
                pad_where(s, p)[i],
            ),
    decreases s.len(),
{
    if s.len() > 0 {
        let init = s.drop_last();
        lemma_pad_where_chars(init, p);
        let r = pad_where(s, p);
        let r0 = pad_where(init, p);
        assert(s[s.len() - 1] == s.last());
        assert forall|i: int| 0 <= i < r.len() implies #[trigger] r[i] == ' ' || s.contains(r[i]) by {
            if i < r0.len() {
                assert(r[i] == r0[i]);
                if init.contains(r0[i]) {
                    let j = choose|j: int| 0 <= j < init.len() && init[j] == r0[i];
                    assert(s[j] == r0[i]);
                }
            }
        }
    }
}

/// Punctuation padding, character by character: a Unicode punctuation
/// character or an ASCII whitespace character at position `j` comes out with
/// a space on either side of it, any other character comes out as it is, and
/// what stands before and after it is padded on its own.
pub proof fn lemma_pad_punctuation_at(s: Seq<char>, j: int)
    requires
        0 <= j < s.len(),
    ensures
        (unicode_is_punctuation(s[j]) || s[j] == ' ' || s[j] == '\t' || s[j] == '\n' || s[j] == '\x0C'
            || s[j] == '\r') ==> pad_punctuation(s) == pad_punctuation(s.take(j)) + seq![' ', s[j], ' ']
            + pad_punctuation(s.skip(j + 1)),
        !(unicode_is_punctuation(s[j]) || s[j] == ' ' || s[j] == '\t' || s[j] == '\n' || s[j] == '\x0C'
            || s[j] == '\r') ==> pad_punctuation(s) == pad_punctuation(s.take(j)) + seq![s[j]]
            + pad_punctuation(s.skip(j + 1)),
{
    let punct = |c: char| is_bert_punct(c);
    assert(s =~= s.take(j) + seq![s[j]] + s.skip(j + 1));
    lemma_pad_where_around(s.take(j), s[j], s.skip(j + 1), punct);
}

/// How many characters of `s` satisfy `p`.
pub open spec fn count_where(s: Seq<char>, p: spec_fn(char) -> bool) -> nat
    decreases s.len(),
{
    if s.len() == 0 {
        0
    } else {
        count_where(s.drop_last(), p) + if p(s.last()) { 1nat } else { 0nat }
    }
}

/// Padding inserts two spaces per selected character and keeps the rest:
/// its length is the input length plus twice the number of selected characters.
pub proof fn lemma_pad_where_len(s: Seq<char>, p: spec_fn(char) -> bool)
    ensures
        pad_where(s, p).len() == s.len() + 2 * count_where(s, p),
    decreases s.len(),
{
    if s.len() > 0 {
        lemma_pad_where_len(s.drop_last(), p);
    }
}


proof fn lemma_pad_where_prefix(s: Seq<char>, p: spec_fn(char) -> bool, k: int)
    requires
        0 <= k <= s.len(),
    ensures
        pad_where(s.take(k), p).len() <= pad_where(s, p).len(),
        pad_where(s, p).subrange(0, pad_where(s.take(k), p).len() as int) == pad_where(s.take(k), p),
    decreases s.len(),
{
    if k == s.len() {
        assert(s.take(k) =~= s);
    } else {
        let init = s.drop_last();
        assert(init.take(k) =~= s.take(k));
        lemma_pad_where_prefix(init, p, k);
        let whole = pad_where(s, p);
        let pre = pad_where(init, p);
        if p(s.last()) {
            assert(whole == pre + seq![' ', s.last(), ' ']);
        } else {
            assert(whole == pre.push(s.last()));
        }
        assert(whole.subrange(0, pad_where(s.take(k), p).len() as int) =~= pre.subrange(
            0,
            pad_where(s.take(k), p).len() as int,
        ));
    }
}

/// Where padding puts each character: the character at position `j` of the
/// input lands at position `j + 2 * (selected characters before it)`, or one
/// further when it is selected itself, in which case a space stands on
/// either side of it.
pub proof fn lemma_pad_where_positions(s: Seq<char>, p: spec_fn(char) -> bool, j: int)
    requires
        0 <= j < s.len(),
    ensures
        ({
            let out = pad_where(s, p);
            let i = j + 2 * count_where(s.take(j), p);
            if p(s[j]) {
                &&& i + 2 < out.len()
                &&& out[i] == ' '
                &&& out[i + 1] == s[j]
                &&& out[i + 2] == ' '
            } else {
                &&& i < out.len()
                &&& out[i] == s[j]
            }
        }),
{
    let pre = s.take(j);
    let upto = s.take(j + 1);
    assert(upto.drop_last() =~= pre);
    assert(upto.last() == s[j]);
    lemma_pad_where_len(pre, p);
    lemma_pad_where_prefix(s, p, j + 1);
    let out = pad_where(s, p);
    let head = pad_where(upto, p);
    let i = j + 2 * count_where(pre, p);
    assert(pad_where(pre, p).len() == i);
    if p(s[j]) {
        assert(head == pad_where(pre, p) + seq![' ', s[j], ' ']);
        assert(out[i] == head[i]);
        assert(out[i + 1] == head[i + 1]);
        assert(out[i + 2] == head[i + 2]);
    } else {
        assert(head == pad_where(pre, p).push(s[j]));
        assert(out[i] == head[i]);
    }
}

/// The characters of `s` other than spaces.
pub open spec fn without_spaces(s: Seq<char>) -> Seq<char>
    decreases s.len(),
{
    if s.len() == 0 {
        Seq::<char>::empty()
    } else if s.last() == ' ' {
        without_spaces(s.drop_last())
    } else {
        without_spaces(s.drop_last()).push(s.last())
    }
}

proof fn lemma_without_spaces_append(a: Seq<char>, b: Seq<char>)
    ensures
        without_spaces(a + b) == without_spaces(a) + without_spaces(b),
    decreases b.len(),
{
    if b.len() == 0 {
        assert(a + b =~= a);
        assert(without_spaces(a) + without_spaces(b) =~= without_spaces(a));
    } else {
        lemma_without_spaces_append(a, b.drop_last());
        assert((a + b).drop_last() =~= a + b.drop_last());
        assert((a + b).last() == b.last());
        if b.last() != ' ' {
            assert(without_spaces(a) + without_spaces(b.drop_last()).push(b.last()) =~= (
            without_spaces(a) + without_spaces(b.drop_last())).push(b.last()));
        }
    }
}

/// Removing the spaces from a padded text gives the text without its spaces:
/// padding only ever adds spaces.
pub proof fn lemma_pad_where_only_adds_spaces(s: Seq<char>, p: spec_fn(char) -> bool)
    ensures
        without_spaces(pad_where(s, p)) == without_spaces(s),
    decreases s.len(),
{
    if s.len() > 0 {
        let init = s.drop_last();
        let c = s.last();
        lemma_pad_where_only_adds_spaces(init, p);
        if p(c) {
            lemma_without_spaces_append(pad_where(init, p), seq![' ', c, ' ']);
            assert(seq![' ', c, ' '].drop_last() =~= seq![' ', c]);
            assert(seq![' ', c].drop_last() =~= seq![' ']);
            assert(seq![' '].drop_last() =~= Seq::<char>::empty());
            assert(without_spaces(Seq::<char>::empty()) =~= Seq::<char>::empty());
            assert(without_spaces(seq![' ']) =~= Seq::<char>::empty());
            if c == ' ' {
                assert(without_spaces(seq![' ', c]) =~= Seq::<char>::empty());
            } else {
                assert(without_spaces(seq![' ', c]) =~= seq![c]);
            }
            assert(without_spaces(seq![' ', c, ' ']) == without_spaces(seq![' ', c]));
            if c == ' ' {
                assert(without_spaces(seq![' ', c, ' ']) =~= Seq::<char>::empty());
                assert(without_spaces(pad_where(init, p)) + Seq::<char>::empty() =~= without_spaces(init));
            } else {
                assert(without_spaces(seq![' ', c, ' ']) =~= seq![c]);
                assert(without_spaces(pad_where(init, p)) + seq![c] =~= without_spaces(init).push(c));
            }
        } else {
            assert(pad_where(init, p).push(c).drop_last() =~= pad_where(init, p));
        }
    }
}

fn is_whitespace(c: char) -> (b: bool)
    ensures
        b == spec_is_whitespace(c),
{
    if c == '\t' || c == '\n' || c == '\r' {
        true
    } else {
        is_white_space(c)
    }
}

fn is_control(c: char) -> (b: bool)
    ensures
        b == spec_is_control(c),
{
    if c == '\t' || c == '\n' || c == '\r' {
        false
    } else {
        is_other(c)
    }
}

fn is_chinese_char(c: char) -> (b: bool)
    ensures
        b == spec_is_chinese_char(c),
{
    let v = c as u32;
    (0x4E00 <= v && v <= 0x9FFF) || (0x3400 <= v && v <= 0x4DBF) || (0x20000 <= v && v <= 0x2A6DF)
        || (0x2A700 <= v && v <= 0x2B73F) || (0x2B740 <= v && v <= 0x2B81F) || (0x2B920 <= v && v
        <= 0x2CEAF) || (0xF900 <= v && v <= 0xFAFF) || (0x2F800 <= v && v <= 0x2FA1F)
}

fn is_ascii_whitespace(c: char) -> (b: bool)
    ensures
        b == spec_is_ascii_whitespace(c),
{
    c == ' ' || c == '\t' || c == '\n' || c == '\x0C' || c == '\r'
}

#[derive(Copy, Clone, Debug)]
#[non_exhaustive]
pub struct BertNormalizer {
    /// Whether to do the bert basic cleaning:
    ///   1. Remove any control characters
    ///   2. Replace all sorts of whitespace by the classic one ` `
    pub clean_text: bool,
    /// Whether to put spaces around chinese characters so they get split
    pub handle_chinese_chars: bool,
    /// Whether to strip accents
    pub strip_accents: Option<bool>,
    /// Whether to lowercase the input
    pub lowercase: bool,
}

/// Appends `seq![' ', c, ' ']`.
fn push_padded(out: &mut Vec<char>, c: char)
    ensures
        final(out)@ == old(out)@ + seq![' ', c, ' '],
{
    out.push(' ');
    out.push(c);
    out.push(' ');
    assert(out@ =~= old(out)@ + seq![' ', c, ' ']);
}


/// Characters whose flag (by position) is set get a space on either side.
pub open spec fn pad_flagged(s: Seq<char>, flags: Seq<bool>) -> Seq<char>
    decreases s.len(),
{
    if s.len() == 0 {
        Seq::<char>::empty()
    } else if flags[s.len() - 1] {
        pad_flagged(s.drop_last(), flags) + seq![' ', s.last(), ' ']
    } else {
        pad_flagged(s.drop_last(), flags).push(s.last())
    }
}

/// The characters whose flag is not set.
pub open spec fn drop_flagged(s: Seq<char>, flags: Seq<bool>) -> Seq<char>
    decreases s.len(),
{
    if s.len() == 0 {
        Seq::<char>::empty()
    } else if flags[s.len() - 1] {
        drop_flagged(s.drop_last(), flags)
    } else {
        drop_flagged(s.drop_last(), flags).push(s.last())
    }
}

/// Flags that tell which characters satisfy `p` select what `p` selects.
pub proof fn lemma_pad_flagged_is_pad_where(s: Seq<char>, flags: Seq<bool>, p: spec_fn(char) -> bool)
    requires
        flags.len() >= s.len(),
        forall|k: int| 0 <= k < s.len() ==> #[trigger] flags[k] == p(s[k]),
    ensures
        pad_flagged(s, flags) == pad_where(s, p),
    decreases s.len(),
{
    if s.len() > 0 {
        let init = s.drop_last();
        assert forall|k: int| 0 <= k < init.len() implies #[trigger] flags[k] == p(init[k]) by {
            assert(init[k] == s[k]);
        }
        lemma_pad_flagged_is_pad_where(init, flags, p);
        assert(flags[s.len() - 1] == p(s[s.len() - 1]));
    }
}

/// Flags that tell which characters cleaning drops leave what cleaning keeps.
pub proof fn lemma_drop_flagged_is_kept(s: Seq<char>, flags: Seq<bool>)
    requires
        flags.len() >= s.len(),
        forall|k: int| 0 <= k < s.len() ==> #[trigger] flags[k] == dropped_by_cleaning(s[k]),
    ensures
        drop_flagged(s, flags) == s.filter(|c: char| kept_by_cleaning(c)),
    decreases s.len(),
{
    reveal(Seq::filter);
    if s.len() > 0 {
        let init = s.drop_last();
        assert forall|k: int| 0 <= k < init.len() implies #[trigger] flags[k] == dropped_by_cleaning(init[k]) by {
            assert(init[k] == s[k]);
        }
        lemma_drop_flagged_is_kept(init, flags);
        assert(flags[s.len() - 1] == dropped_by_cleaning(s[s.len() - 1]));
    }
}

/// Cleaning is keeping the characters that it does not drop, then turning
/// whitespace into `' '`.
pub proof fn lemma_clean_text_is_keep_then_space(s: Seq<char>)
    ensures
        clean_text(s) == s.filter(|c: char| kept_by_cleaning(c)).map_values(|c: char| space_for_whitespace(c)),
    decreases s.len(),
{
    reveal(Seq::filter);
    let keep = |c: char| kept_by_cleaning(c);
    let space = |c: char| space_for_whitespace(c);
    if s.len() == 0 {
        assert(s.filter(keep).map_values(space) =~= Seq::<char>::empty());
    } else {
        let init = s.drop_last();
        lemma_clean_text_is_keep_then_space(init);
        let k0 = init.filter(keep);
        if keep(s.last()) {
            assert(k0.push(s.last()).map_values(space) =~= k0.map_values(space).push(space(s.last())));
        }
    }
}

pub proof fn lemma_drop_flagged_is_drop_marks(s: Seq<char>, flags: Seq<bool>)
    requires
        flags.len() >= s.len(),
        forall|k: int| 0 <= k < s.len() ==> #[trigger] flags[k] == unicode_is_mark_nonspacing(s[k]),
    ensures
        drop_flagged(s, flags) == drop_nonspacing_marks(s),
    decreases s.len(),
{
    if s.len() > 0 {
        let init = s.drop_last();
        assert forall|k: int| 0 <= k < init.len() implies #[trigger] flags[k] == unicode_is_mark_nonspacing(init[k]) by {
            assert(init[k] == s[k]);
        }
        lemma_drop_flagged_is_drop_marks(init, flags);
        assert(flags[s.len() - 1] == unicode_is_mark_nonspacing(s[s.len() - 1]));
    }
}

/// Puts a space on either side of each flagged character.
pub fn pad_flagged_chars(s: &[char], flags: &[bool]) -> (r: Vec<char>)
    requires
        flags@.len() == s@.len(),
    ensures
        r@ == pad_flagged(s@, flags@),
{
    let mut out: Vec<char> = Vec::new();
    let mut i: usize = 0;
    while i < s.len()
        invariant
            i <= s.len(),
            flags@.len() == s@.len(),
            out@ == pad_flagged(s@.take(i as int), flags@),
        decreases s.len() - i,
    {
        let c = s[i];
        assert(s@.take(i + 1).drop_last() =~= s@.take(i as int));
        assert(s@.take(i + 1).last() == c);
        if flags[i] {
            push_padded(&mut out, c);
        } else {
            out.push(c);
        }
        i += 1;
    }
    assert(s@.take(s.len() as int) =~= s@);
    out
}

/// Keeps the characters whose flag is not set.
pub fn drop_flagged_chars(s: &[char], flags: &[bool]) -> (r: Vec<char>)
    requires
        flags@.len() == s@.len(),
    ensures
        r@ == drop_flagged(s@, flags@),
{
    let mut out: Vec<char> = Vec::new();
    let mut i: usize = 0;
    while i < s.len()
        invariant
            i <= s.len(),
            flags@.len() == s@.len(),
            out@ == drop_flagged(s@.take(i as int), flags@),
        decreases s.len() - i,
    {
        let c = s[i];
        assert(s@.take(i + 1).drop_last() =~= s@.take(i as int));
        assert(s@.take(i + 1).last() == c);
        if !flags[i] {
            out.push(c);
        }
        i += 1;
    }
    assert(s@.take(s.len() as int) =~= s@);
    out
}

impl BertNormalizer {
    /// Accents are stripped when asked for, and by default when lowercasing.
    pub open spec fn strips_accents(self) -> bool {
        match self.strip_accents {
            Some(b) => b,
            None => self.lowercase,
        }
    }

    /// The normalization: cleaning, spaces around CJK ideographs, accent
    /// stripping, lowercasing (each where enabled), then spaces around
    /// punctuation and ASCII whitespace.
    pub open spec fn spec_normalize_text(self, s: Seq<char>) -> Seq<char> {
        let s1 = if self.clean_text { clean_text(s) } else { s };
        let s2 = if self.handle_chinese_chars { pad_chinese_chars(s1) } else { s1 };
        let s3 = if self.strips_accents() { strip_accents_of(s2) } else { s2 };
        let s4 = if self.lowercase { unicode_lowercase(s3) } else { s3 };
        pad_punctuation(s4)
    }

    /// Accent stripping defaults to lowercasing: a normalizer with
    /// `strip_accents` unset normalizes exactly as the same normalizer with
    /// `strip_accents` set to its `lowercase` flag.
    pub proof fn lemma_strip_accents_default(self, s: Seq<char>)
        requires
            self.strip_accents is None,
        ensures
            self.spec_normalize_text(s) == (BertNormalizer {
                clean_text: self.clean_text,
                handle_chinese_chars: self.handle_chinese_chars,
                strip_accents: Some(self.lowercase),
                lowercase: self.lowercase,
            }).spec_normalize_text(s),
    {
    }

    /// Without cleaning, CJK padding, lowercasing, and accent stripping (not
    /// asked for, and not implied by lowercasing), normalization only adds
    /// spaces: every other character of the input, non-spacing marks
    /// included, comes out in order.
    pub proof fn lemma_unstripped_keeps_characters(self, s: Seq<char>)
        requires
            !self.clean_text,
            !self.handle_chinese_chars,
            !self.lowercase,
            self.strip_accents != Some(true),
        ensures
            without_spaces(self.spec_normalize_text(s)) == without_spaces(s),
    {
        lemma_pad_where_only_adds_spaces(s, |c: char| is_bert_punct(c));
    }

    /// Without accent stripping and lowercasing, a Unicode punctuation
    /// character that survives cleaning and is no CJK ideograph comes out with
    /// a space on either side, so it always stands as a word of its own.
    pub proof fn lemma_normalize_pads_punctuation(self, a: Seq<char>, c: char, b: Seq<char>)
        requires
            !self.strips_accents(),
            !self.lowercase,
            unicode_is_punctuation(c),
            self.clean_text ==> !dropped_by_cleaning(c) && !spec_is_whitespace(c),
            self.handle_chinese_chars ==> !spec_is_chinese_char(c),
        ensures
            self.spec_normalize_text(a + seq![c] + b) == self.spec_normalize_text(a) + seq![' ', c, ' ']
                + self.spec_normalize_text(b),
    {
        let t = a + seq![c] + b;
        let s1 = if self.clean_text { clean_text(t) } else { t };
        let a1 = if self.clean_text { clean_text(a) } else { a };
        let b1 = if self.clean_text { clean_text(b) } else { b };
        if self.clean_text {
            lemma_clean_text_concat(a + seq![c], b);
            lemma_clean_text_concat(a, seq![c]);
            assert(seq![c].drop_last() =~= Seq::<char>::empty());
            assert(seq![c].last() == c);
            assert(clean_text(Seq::<char>::empty()) =~= Seq::<char>::empty());
            assert(clean_text(seq![c]) =~= seq![c]);
        }
        assert(s1 == a1 + seq![c] + b1);
        let cjk = |x: char| spec_is_chinese_char(x);
        let s2 = if self.handle_chinese_chars { pad_chinese_chars(s1) } else { s1 };
        let a2 = if self.handle_chinese_chars { pad_chinese_chars(a1) } else { a1 };
        let b2 = if self.handle_chinese_chars { pad_chinese_chars(b1) } else { b1 };
        if self.handle_chinese_chars {
            lemma_pad_where_around(a1, c, b1, cjk);
        }
        assert(s2 == a2 + seq![c] + b2);
        let punct = |x: char| is_bert_punct(x);
        lemma_pad_where_around(a2, c, b2, punct);
    }

    /// Without accent stripping and lowercasing, normalizing two texts
    /// joined by a space gives their normalizations joined by the padded
    /// space `"   "`.
    pub proof fn lemma_normalize_join(self, a: Seq<char>, b: Seq<char>)
        requires
            !self.strips_accents(),
            !self.lowercase,
        ensures
            self.spec_normalize_text(a + seq![' '] + b) == self.spec_normalize_text(a) + seq![' ', ' ', ' ']
                + self.spec_normalize_text(b),
    {
        let t = a + seq![' '] + b;
        let s1 = if self.clean_text { clean_text(t) } else { t };
        let a1 = if self.clean_text { clean_text(a) } else { a };
        let b1 = if self.clean_text { clean_text(b) } else { b };
        if self.clean_text {
            lemma_clean_text_concat(a + seq![' '], b);
            lemma_clean_text_concat(a, seq![' ']);
            assert(seq![' '].drop_last() =~= Seq::<char>::empty());
            assert(seq![' '].last() == ' ');
            assert((' ' as u32) == 0x20);
            assert(!dropped_by_cleaning(' ') && spec_is_whitespace(' '));
            assert(clean_text(Seq::<char>::empty()) =~= Seq::<char>::empty());
            assert(clean_text(seq![' ']) =~= seq![' ']);
        }
        assert(s1 == a1 + seq![' '] + b1);
        let cjk = |c: char| spec_is_chinese_char(c);
        let s2 = if self.handle_chinese_chars { pad_chinese_chars(s1) } else { s1 };
        let a2 = if self.handle_chinese_chars { pad_chinese_chars(a1) } else { a1 };
        let b2 = if self.handle_chinese_chars { pad_chinese_chars(b1) } else { b1 };
        if self.handle_chinese_chars {
            lemma_pad_where_around(a1, ' ', b1, cjk);
        }
        assert(s2 == a2 + seq![' '] + b2);
        let punct = |c: char| is_bert_punct(c);
        lemma_pad_where_around(a2, ' ', b2, punct);
    }

    /// With cleaning on, and neither accent stripping nor lowercasing, the
    /// normalized text holds no NUL, no U+FFFD, no control character and no
    /// whitespace other than the plain space.
    pub proof fn lemma_normalized_is_clean(self, s: Seq<char>)
        requires
            self.clean_text,
            !self.strips_accents(),
            !self.lowercase,
        ensures
            forall|i: int|
                0 <= i < self.spec_normalize_text(s).len() ==> #[trigger] self.spec_normalize_text(s)[i]
                    == ' ' || (!spec_is_whitespace(self.spec_normalize_text(s)[i]) && !dropped_by_cleaning(
                    self.spec_normalize_text(s)[i],
                )),
    {
        let s1 = clean_text(s);
        lemma_clean_text_chars(s);
        let cjk = |c: char| spec_is_chinese_char(c);
        let s2 = if self.handle_chinese_chars { pad_chinese_chars(s1) } else { s1 };
        lemma_pad_where_chars(s1, cjk);
        let punct = |c: char| is_bert_punct(c);
        lemma_pad_where_chars(s2, punct);
        let out = self.spec_normalize_text(s);
        assert(out == pad_where(s2, punct));
        assert forall|i: int| 0 <= i < out.len() implies #[trigger] out[i] == ' ' || (!spec_is_whitespace(out[i])
            && !dropped_by_cleaning(out[i])) by {
            if out[i] != ' ' {
                let j = choose|j: int| 0 <= j < s2.len() && s2[j] == out[i];
                if self.handle_chinese_chars {
                    let k = choose|k: int| 0 <= k < s1.len() && s1[k] == s2[j];
                    assert(s1[k] == out[i]);
                } else {
                    assert(s1[j] == out[i]);
                }
            }
        }
    }

    pub fn new(
        clean_text: bool,
        handle_chinese_chars: bool,
        strip_accents: Option<bool>,
        lowercase: bool,
    ) -> (res: Self)
        ensures
            res.clean_text == clean_text,
            res.handle_chinese_chars == handle_chinese_chars,
            res.strip_accents == strip_accents,
            res.lowercase == lowercase,
    {
        Self { clean_text, handle_chinese_chars, strip_accents, lowercase }
    }

    /// Removes from `normalized` the characters that cleaning drops, and
    /// returns what is left with each whitespace character turned into `' '`.
    fn do_clean_text(&self, normalized: &mut Vec<char>) -> (r: Vec<char>)
        ensures
            final(normalized)@ == old(normalized)@.filter(|c: char| kept_by_cleaning(c)),
            r@ == final(normalized)@.map_values(|c: char| space_for_whitespace(c)),
            r@ == clean_text(old(normalized)@),
    {
        let mut dropped: Vec<bool> = Vec::new();
        let mut i: usize = 0;
        while i < normalized.len()
            invariant
                i <= normalized.len(),
                dropped@.len() == i,
                forall|k: int| 0 <= k < i ==> #[trigger] dropped@[k] == dropped_by_cleaning(normalized@[k]),
            decreases normalized.len() - i,
        {
            let c = normalized[i];
            let code = c as u32;
            dropped.push(code == 0 || code == 0xFFFD || is_control(c));
            i += 1;
        }
        proof {
            lemma_drop_flagged_is_kept(normalized@, dropped@);
            lemma_clean_text_is_keep_then_space(normalized@);
        }
        *normalized = drop_flagged_chars(normalized.as_slice(), dropped.as_slice());
        let ghost space = |c: char| space_for_whitespace(c);
        let mut out: Vec<char> = Vec::new();
        let mut j: usize = 0;
        while j < normalized.len()
            invariant
                j <= normalized.len(),
                space == |c: char| space_for_whitespace(c),
                out@ == normalized@.take(j as int).map_values(space),
            decreases normalized.len() - j,
        {
            let c = normalized[j];
            if is_whitespace(c) {
                out.push(' ');
            } else {
                out.push(c);
            }
            assert(normalized@.take(j + 1) =~= normalized@.take(j as int).push(c));
            assert(normalized@.take(j + 1).map_values(space) =~= normalized@.take(j as int).map_values(space).push(
                space(c),
            ));
            j += 1;
        }
        assert(normalized@.take(normalized.len() as int) =~= normalized@);
        out
    }

    fn do_handle_chinese_chars(&self, s: &[char]) -> (r: Vec<char>)
        ensures
            r@ == pad_chinese_chars(s@),
    {
        let ghost p = |c: char| spec_is_chinese_char(c);
        let mut flags: Vec<bool> = Vec::new();
        let mut i: usize = 0;
        while i < s.len()
            invariant
                i <= s.len(),
                p == |c: char| spec_is_chinese_char(c),
                flags@.len() == i,
                forall|k: int| 0 <= k < i ==> #[trigger] flags@[k] == p(s@[k]),
            decreases s.len() - i,
        {
            flags.push(is_chinese_char(s[i]));
            i += 1;
        }
        proof {
            lemma_pad_flagged_is_pad_where(s@, flags@, p);
        }
        pad_flagged_chars(s, flags.as_slice())
    }

    fn do_handle_bert_punct(&self, s: &[char]) -> (r: Vec<char>)
        ensures
            r@ == pad_punctuation(s@),
    {
        let ghost p = |c: char| is_bert_punct(c);
        let mut flags: Vec<bool> = Vec::new();
        let mut i: usize = 0;
        while i < s.len()
            invariant
                i <= s.len(),
                p == |c: char| is_bert_punct(c),
                flags@.len() == i,
                forall|k: int| 0 <= k < i ==> #[trigger] flags@[k] == p(s@[k]),
            decreases s.len() - i,
        {
            let c = s[i];
            flags.push(is_punctuation(c) || is_ascii_whitespace(c));
            i += 1;
        }
        proof {
            lemma_pad_flagged_is_pad_where(s@, flags@, p);
        }
        pad_flagged_chars(s, flags.as_slice())
    }

    fn do_strip_accents(&self, s: &[char]) -> (r: Vec<char>)
        ensures
            r@ == strip_accents_of(s@),
    {
        let d = nfd(s);
        let mut marks: Vec<bool> = Vec::new();
        let mut i: usize = 0;
        while i < d.len()
            invariant
                i <= d.len(),
                marks@.len() == i,
                forall|k: int| 0 <= k < i ==> #[trigger] marks@[k] == unicode_is_mark_nonspacing(d@[k]),
            decreases d.len() - i,
        {
            marks.push(is_mark_nonspacing(d[i]));
            i += 1;
        }
        proof {
            lemma_drop_flagged_is_drop_marks(d@, marks@);
        }
        drop_flagged_chars(d.as_slice(), marks.as_slice())
    }

    fn do_lowercase(&self, s: &[char]) -> (r: Vec<char>)
        ensures
            r@ == unicode_lowercase(s@),
    {
        lowercase(s)
    }
}

impl Normalizer for BertNormalizer {
    open spec fn spec_normalize(&self, text: Seq<char>) -> Seq<char> {
        self.spec_normalize_text(text)
    }

    open spec fn spec_split(&self, c: char) -> bool {
        unicode_is_white_space(c)
    }

    fn normalize(&self, text: &str) -> (res: String) {
        let mut normalized = str_to_chars(text);
        if self.clean_text {
            normalized = self.do_clean_text(&mut normalized);
        }
        if self.handle_chinese_chars {
            normalized = self.do_handle_chinese_chars(normalized.as_slice());
        }
        let strip = match self.strip_accents {
            Some(b) => b,
            None => self.lowercase,
        };
        if strip {
            normalized = self.do_strip_accents(normalized.as_slice());
        }
        if self.lowercase {
            normalized = self.do_lowercase(normalized.as_slice());
        }
        normalized = self.do_handle_bert_punct(normalized.as_slice());
        chars_to_string(normalized.as_slice())
    }

    fn split_fn(&self, c: char) -> (res: bool) {
        is_white_space(c)
    }
}

} // verus!
