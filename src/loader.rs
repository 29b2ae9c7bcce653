//! Feeding a sequence of tokens into a vocabulary.
use crate::vocabulary::{all_occupied, same_config, VocabError, Vocabulary};
use vstd::prelude::*;

verus! {

/// Add every token in order. Stops at the first token that finds the table full
/// and returns that error; the tokens before it stay added.
pub fn read_from_iter(vocab: &mut Vocabulary, words: &[String]) -> (r: Result<(), VocabError>)
    requires
        old(vocab).wf(),
        old(vocab).n_tokens + words@.len() <= u32::MAX,
    ensures
        final(vocab).wf(),
        same_config(*old(vocab), *final(vocab)),
        forall|w: Seq<char>| old(vocab).contains(w) ==> #[trigger] final(vocab).contains(w),
        r is Ok ==> final(vocab).n_tokens == old(vocab).n_tokens + words@.len(),
        r is Ok ==> forall|k: int| 0 <= k < words@.len() ==> final(vocab).contains(#[trigger] words@[k]@),
        r is Err ==> all_occupied(final(vocab).word_to_index@),
        r is Err ==> exists|k: int| 0 <= k < words@.len() && !final(vocab).contains(#[trigger] words@[k]@),
{
    let ghost pre = *vocab;
    let mut i: usize = 0;
    while i < words.len()
        invariant
            pre == *old(vocab),
            vocab.wf(),
            same_config(pre, *vocab),
            i <= words@.len(),
            vocab.n_tokens == pre.n_tokens + i,
            pre.n_tokens + words@.len() <= u32::MAX,
            forall|w: Seq<char>| pre.contains(w) ==> #[trigger] vocab.contains(w),
            forall|k: int| 0 <= k < i ==> vocab.contains(#[trigger] words@[k]@),
        decreases words@.len() - i,
    {
        let ghost before = *vocab;
        let r = vocab.add(&words[i]);
        if r.is_err() {
            assert(!vocab.contains(words@[i as int]@));
            return r;
        }
        proof {
            assert forall|k: int| 0 <= k < i + 1 implies vocab.contains(#[trigger] words@[k]@) by {
                if k < i {
                    assert(before.contains(words@[k]@));
                }
            }
        }
        i += 1;
    }
    Ok(())
}

} // verus!
