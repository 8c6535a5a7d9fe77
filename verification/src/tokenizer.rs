//! The tokenizer interface and the whitespace tokenizer used by small test
//! models.

use vstd::prelude::*;
use vstd::string::*;
use crate::error::MiniInferError;
use crate::text::{chars_of, chars_eq, split_whitespace, split_ws};
use crate::bpe::strings_view;

verus! {

/// Turns text into token ids and back.
pub trait Tokenizer {
    fn encode(&self, text: &str) -> Result<Vec<usize>, MiniInferError>;

    fn decode(&self, token_ids: &[usize]) -> Result<String, MiniInferError>;
}

/// `words` joined with single spaces.
pub open spec fn join_with_spaces(words: Seq<Seq<char>>) -> Seq<char>
    decreases words.len(),
{
    if words.len() == 0 {
        seq![]
    } else if words.len() == 1 {
        words[0]
    } else {
        join_with_spaces(words.drop_last()) + seq![' '] + words.last()
    }
}

/// The first position of `word` in `vocab`, if it occurs.
pub open spec fn first_position(vocab: Seq<Seq<char>>, word: Seq<char>) -> Option<int> {
    if exists|i: int| 0 <= i < vocab.len() && vocab[i] == word {
        Some(
            choose|i: int|
                0 <= i < vocab.len() && vocab[i] == word && forall|j: int|
                    0 <= j < i ==> vocab[j] != word,
        )
    } else {
        None
    }
}

/// Index `k` is the first id of `ids` that is not below `n`.
pub open spec fn is_first_out_of_range_id(ids: Seq<usize>, n: nat, k: int) -> bool {
    &&& 0 <= k < ids.len()
    &&& ids[k] >= n
    &&& forall|j: int| 0 <= j < k ==> ids[j] < n
}

/// A tokenizer whose tokens are the white-space separated words of the text.
pub struct TinyTokenizer {
    vocab: Vec<String>,
}

impl TinyTokenizer {
    /// The vocabulary: token id `i` is the `i`-th word.
    pub closed spec fn words(&self) -> Seq<Seq<char>> {
        strings_view(self.vocab@)
    }

    pub fn new(vocab: Vec<String>) -> (t: Self)
        ensures
            t.words() == strings_view(vocab@),
    {
        Self { vocab }
    }

    /// The words in id order.
    pub fn vocab(&self) -> (v: &[String])
        ensures
            strings_view(v@) == self.words(),
    {
        self.vocab.as_slice()
    }

    /// The token ids of `text`: `None` when a word is not in the vocabulary.
    pub open spec fn spec_encode(&self, text: Seq<char>) -> Option<Seq<usize>> {
        let words = split_ws(text);
        if forall|k: int| 0 <= k < words.len() ==> #[trigger] first_position(self.words(), words[k]) is Some {
            Some(words.map_values(|w: Seq<char>| first_position(self.words(), w)->0 as usize))
        } else {
            None
        }
    }

    fn position(&self, word: &[char]) -> (r: Option<usize>)
        ensures
            match first_position(self.words(), word@) {
                Some(i) => r == Some(i as usize),
                None => r is None,
            },
    {
        let mut i: usize = 0;
        while i < self.vocab.len()
            invariant
                i <= self.vocab@.len(),
                forall|j: int| 0 <= j < i ==> self.words()[j] != word@,
            decreases self.vocab.len() - i,
        {
            let candidate = chars_of(self.vocab[i].as_str());
            if chars_eq(candidate.as_slice(), word) {
                proof {
                    let w = self.words();
                    assert(w[i as int] == word@);
                    let c = choose|c: int|
                        0 <= c < w.len() && w[c] == word@ && forall|j: int| 0 <= j < c ==> w[j] != word@;
                    if c < i {
                    } else if c > i {
                        assert(w[i as int] != word@);
                    }
                }
                return Some(i);
            }
            i = i + 1;
        }
        None
    }
}

/// When `word` occurs in `vocab`, its first position holds it.
pub proof fn lemma_first_position(vocab: Seq<Seq<char>>, word: Seq<char>)
    ensures
        first_position(vocab, word) matches Some(i) ==> 0 <= i < vocab.len() && vocab[i] == word && forall|j: int|
            0 <= j < i ==> vocab[j] != word,
{
    if exists|i: int| 0 <= i < vocab.len() && vocab[i] == word {
        let i = choose|i: int| 0 <= i < vocab.len() && vocab[i] == word;
        lemma_first_occurrence_exists(vocab, word, i);
    }
}

proof fn lemma_first_occurrence_exists(vocab: Seq<Seq<char>>, word: Seq<char>, i: int)
    requires
        0 <= i < vocab.len(),
        vocab[i] == word,
    ensures
        exists|m: int| 0 <= m < vocab.len() && vocab[m] == word && forall|j: int| 0 <= j < m ==> vocab[j] != word,
    decreases i,
{
    if exists|j: int| 0 <= j < i && vocab[j] == word {
        let j = choose|j: int| 0 <= j < i && vocab[j] == word;
        lemma_first_occurrence_exists(vocab, word, j);
    } else {
        assert(forall|j: int| 0 <= j < i ==> vocab[j] != word);
    }
}

/// Decoding what encoding gives back returns the words of the text, joined
/// by single spaces: every id that encoding gives is in range, and it names
/// the word it was found for.
pub proof fn lemma_tiny_decode_after_encode(t: TinyTokenizer, text: Seq<char>)
    requires
        t.words().len() <= usize::MAX,
        t.spec_encode(text) is Some,
    ensures
        ({
            let ids = t.spec_encode(text)->0;
            &&& forall|k: int| 0 <= k < ids.len() ==> #[trigger] ids[k] < t.words().len()
            &&& ids.map_values(|i: usize| t.words()[i as int]) == split_ws(text)
        }),
{
    let ws = split_ws(text);
    let ids = t.spec_encode(text)->0;
    assert forall|k: int| 0 <= k < ids.len() implies #[trigger] ids[k] < t.words().len() && t.words()[ids[k] as int]
        == ws[k] by {
        assert(first_position(t.words(), ws[k]) is Some);
        lemma_first_position(t.words(), ws[k]);
    }
    assert(ids.map_values(|i: usize| t.words()[i as int]) =~= ws);
}

impl Tokenizer for TinyTokenizer {
    fn encode(&self, text: &str) -> (r: Result<Vec<usize>, MiniInferError>)
        ensures
            match self.spec_encode(text@) {
                Some(ids) => r matches Ok(v) && v@ == ids,
                None => r == Err::<Vec<usize>, MiniInferError>(MiniInferError::InvalidInput),
            },
    {
        let chars = chars_of(text);
        let words = split_whitespace(chars.as_slice());
        let ghost ws = split_ws(text@);
        let mut token_ids: Vec<usize> = Vec::new();
        let mut k: usize = 0;
        while k < words.len()
            invariant
                k <= words@.len(),
                words@.map_values(|w: Vec<char>| w@) == ws,
                ws == split_ws(text@),
                token_ids@.len() == k,
                forall|j: int| 0 <= j < k ==> #[trigger] first_position(self.words(), ws[j]) is Some
                    && token_ids@[j] == first_position(self.words(), ws[j])->0 as usize,
            decreases words.len() - k,
        {
            assert(ws[k as int] == words@[k as int]@);
            match self.position(words[k].as_slice()) {
                Some(index) => token_ids.push(index),
                None => {
                    return Err(MiniInferError::InvalidInput);
                },
            }
            k = k + 1;
        }
        assert(token_ids@ =~= ws.map_values(
            |w: Seq<char>| first_position(self.words(), w)->0 as usize,
        ));
        Ok(token_ids)
    }

    fn decode(&self, token_ids: &[usize]) -> (r: Result<String, MiniInferError>)
        ensures
            if exists|k: int| is_first_out_of_range_id(token_ids@, self.words().len(), k) {
                let k = choose|k: int| is_first_out_of_range_id(token_ids@, self.words().len(), k);
                r == Err::<String, MiniInferError>(
                    MiniInferError::IndexOutOfBounds { index: token_ids@[k], len: self.words().len() as usize },
                )
            } else {
                r matches Ok(s) && s@ == join_with_spaces(
                    token_ids@.map_values(|i: usize| self.words()[i as int]),
                )
            },
    {
        let ghost n = self.words().len();
        let mut text = String::new();
        let mut k: usize = 0;
        while k < token_ids.len()
            invariant
                k <= token_ids@.len(),
                n == self.words().len() == self.vocab@.len(),
                forall|j: int| 0 <= j < k ==> token_ids@[j] < n,
                text@ == join_with_spaces(
                    token_ids@.take(k as int).map_values(|i: usize| self.words()[i as int]),
                ),
            decreases token_ids.len() - k,
        {
            let id = token_ids[k];
            if id >= self.vocab.len() {
                proof {
                    assert(is_first_out_of_range_id(token_ids@, n, k as int));
                    let c = choose|c: int| is_first_out_of_range_id(token_ids@, n, c);
                    if c < k {
                        assert(token_ids@[c] < n);
                    } else if c > k {
                        assert(token_ids@[k as int] < n);
                    }
                }
                return Err(MiniInferError::IndexOutOfBounds { index: id, len: self.vocab.len() });
            }
            let ghost before = token_ids@.take(k as int).map_values(|i: usize| self.words()[i as int]);
            if k > 0 {
                text.append(" ");
                proof {
                    reveal_strlit(" ");
                }
            }
            text.append(self.vocab[id].as_str());
            k = k + 1;
            proof {
                let after = token_ids@.take(k as int).map_values(|i: usize| self.words()[i as int]);
                assert(after.drop_last() =~= before);
                assert(after.last() == self.vocab@[id as int]@);
                if k == 1 {
                    assert(text@ =~= after[0]);
                } else {
                    assert(text@ =~= join_with_spaces(before) + seq![' '] + after.last());
                }
            }
        }
        proof {
            assert(token_ids@.take(token_ids@.len() as int) =~= token_ids@);
            assert(!exists|c: int| is_first_out_of_range_id(token_ids@, n, c));
        }
        Ok(text)
    }
}

} // verus!
