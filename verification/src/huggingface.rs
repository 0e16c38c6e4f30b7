//! The choice of the module to load from a Hugging Face model repository,
//! made on the entries of its `modules.json`.
use vstd::prelude::*;
use crate::text::str_to_chars;
use crate::token_map::chars_equal;

verus! {

/// One entry of `modules.json`: the module's type and its directory in the repository.
#[derive(Debug, Clone)]
pub struct HFModule {
    pub module_type: String,
    pub path: String,
}

/// The module type that is loaded.
pub open spec fn sentence_transformer_type() -> Seq<char> {
    "sentence_transformer.SentenceTransformer"@
}

/// How many of `modules` have the loaded module type.
pub open spec fn count_sentence_transformers(modules: Seq<HFModule>) -> nat
    decreases modules.len(),
{
    if modules.len() == 0 {
        0
    } else {
        count_sentence_transformers(modules.drop_last()) + if modules.last().module_type@
            == sentence_transformer_type() {
            1nat
        } else {
            0nat
        }
    }
}

/// The index of the only module of the loaded type, or, when there is not
/// exactly one, the number of modules of that type.
pub fn select_sentence_transformer(modules: &[HFModule]) -> (r: Result<usize, usize>)
    ensures
        match r {
            Ok(i) => count_sentence_transformers(modules@) == 1 && i < modules@.len()
                && modules@[i as int].module_type@ == sentence_transformer_type(),
            Err(n) => count_sentence_transformers(modules@) != 1 && n == count_sentence_transformers(
                modules@,
            ),
        },
{
    let wanted = str_to_chars("sentence_transformer.SentenceTransformer");
    proof {
        reveal_strlit("sentence_transformer.SentenceTransformer");
    }
    let mut count: usize = 0;
    let mut found: usize = 0;
    let mut i: usize = 0;
    while i < modules.len()
        invariant
            wanted@ == sentence_transformer_type(),
            i <= modules@.len(),
            count == count_sentence_transformers(modules@.take(i as int)),
            count <= i,
            count >= 1 ==> found < i && modules@[found as int].module_type@ == sentence_transformer_type(),
        decreases modules.len() - i,
    {
        assert(modules@.take(i + 1).drop_last() =~= modules@.take(i as int));
        assert(modules@.take(i + 1).last() == modules@[i as int]);
        let t = str_to_chars(modules[i].module_type.as_str());
        if chars_equal(t.as_slice(), wanted.as_slice()) {
            if count == 0 {
                found = i;
            }
            count += 1;
        }
        i += 1;
    }
    assert(modules@.take(modules.len() as int) =~= modules@);
    if count == 1 {
        Ok(found)
    } else {
        Err(count)
    }
}

} // verus!
