//! The corpus and the character-level vocabulary.
//!
//! A token is a single Unicode scalar (`char`). The vocabulary is built from the
//! unique characters present in the corpus. Training consumes the corpus as one
//! long stream of token ids, sliced into overlapping windows of `window + 1` ids
//! (the extra id is the final prediction target).
use std::collections::BTreeMap;
use vstd::prelude::*;

use crate::arith::{
    deterministic, narrowed, wide_counted, wide_difference, wide_logarithm, wide_product,
    wide_quotient, Arith,
};
use crate::scalar::{wide_nought, Double, Single};
use crate::text::{chars_of, code, code_of, lemma_code, string_of};

verus! {

pub struct Corpus {
    /// The whole corpus as token ids.
    pub tokens: Vec<u32>,
    /// id -> char, indexed by token id.
    pub id_to_char: Vec<char>,
    /// Scalar value of the character -> id.
    pub char_to_id: BTreeMap<u32, u32>,
}

/// Strictly ascending by scalar value.
pub open spec fn is_ascending(cs: Seq<char>) -> bool {
    forall|i: int, j: int|
        0 <= i < j < cs.len() ==> (#[trigger] cs[i] as int) < (#[trigger] cs[j] as int)
}

/// The same characters, each once, in ascending order.
pub open spec fn is_vocabulary_of(vocab: Seq<char>, text: Seq<char>) -> bool {
    &&& is_ascending(vocab)
    &&& forall|c: char| #[trigger] vocab.contains(c) <==> text.contains(c)
}

/// Holds of the characters in `vocab`.
pub open spec fn known(vocab: Seq<char>) -> spec_fn(char) -> bool {
    |c: char| vocab.contains(c)
}

/// The token id of a character of the vocabulary.
pub open spec fn id_in(vocab: Seq<char>) -> spec_fn(char) -> u32 {
    |c: char| vocab.index_of(c) as u32
}

/// The token ids of those characters of `text` that are in the vocabulary.
pub open spec fn encoded(vocab: Seq<char>, text: Seq<char>) -> Seq<u32> {
    text.filter(known(vocab)).map_values(id_in(vocab))
}

/// The characters that token ids stand for.
pub open spec fn decoded(vocab: Seq<char>, ids: Seq<u32>) -> Seq<char> {
    ids.map_values(|i: u32| vocab[i as int])
}

/// How often `id` is among the first `upto` tokens.
pub open spec fn occurrences(tokens: Seq<u32>, id: int, upto: int) -> nat
    decreases upto,
{
    if upto <= 0 {
        0
    } else {
        occurrences(tokens, id, upto - 1) + if tokens[upto - 1] == id {
            1nat
        } else {
            0
        }
    }
}

/// The share of `id` in the tokens.
pub open spec fn share<A: Arith>(tokens: Seq<u32>, id: int) -> Double {
    wide_quotient::<A>(
        wide_counted::<A>(occurrences(tokens, id, tokens.len() as int) as u64),
        wide_counted::<A>(tokens.len() as u64),
    )
}

/// Minus share times logarithm of share, over the first `ids` ids that occur.
pub open spec fn entropy<A: Arith>(tokens: Seq<u32>, ids: int) -> Double
    decreases ids,
{
    if ids <= 0 {
        wide_nought()
    } else if occurrences(tokens, ids - 1, tokens.len() as int) > 0 {
        let p = share::<A>(tokens, ids - 1);
        wide_difference::<A>(
            entropy::<A>(tokens, ids - 1),
            wide_product::<A>(p, wide_logarithm::<A>(p)),
        )
    } else {
        entropy::<A>(tokens, ids - 1)
    }
}

impl Corpus {
    /// The index holds each character of the vocabulary with its id, and no other.
    pub open spec fn is_indexed(self) -> bool {
        &&& forall|i: int|
            0 <= i < self.id_to_char@.len() ==> {
                let key = code(#[trigger] self.id_to_char@[i]);
                self.char_to_id@.contains_key(key) && self.char_to_id@[key] == i
            }
        &&& forall|key: u32| #[trigger]
            self.char_to_id@.contains_key(key) ==> {
                let i = self.char_to_id@[key] as int;
                i < self.id_to_char@.len() && code(self.id_to_char@[i]) == key
            }
    }

    /// Every token is an id of the vocabulary, which is in order and indexed.
    pub open spec fn wf(self) -> bool {
        &&& is_ascending(self.id_to_char@)
        &&& forall|k: int|
            0 <= k < self.tokens@.len() ==> #[trigger] self.tokens@[k] < self.id_to_char@.len()
        &&& self.is_indexed()
    }
}

/// A strictly ascending sequence of characters is no longer than there are
/// scalar values.
proof fn lemma_ascending_len(cs: Seq<char>, i: int)
    requires
        is_ascending(cs),
        0 <= i < cs.len(),
    ensures
        i <= cs[i] as int,
        i <= 0x10FFFF,
    decreases i,
{
    lemma_code(cs[i]);
    if i > 0 {
        lemma_ascending_len(cs, i - 1);
        assert((cs[i - 1] as int) < (cs[i] as int));
    }
}

/// In an ascending vocabulary a character has one place.
pub proof fn lemma_index_of(vocab: Seq<char>, i: int)
    requires
        is_ascending(vocab),
        0 <= i < vocab.len(),
    ensures
        vocab.contains(vocab[i]),
        vocab.index_of(vocab[i]) == i,
{
    let j = vocab.index_of(vocab[i]);
    assert(0 <= j < vocab.len() && vocab[j] == vocab[i]);
    if j < i {
        assert((vocab[j] as int) < (vocab[i] as int));
    }
    if i < j {
        assert((vocab[i] as int) < (vocab[j] as int));
    }
}

/// Where `c` is, or belongs, in `vocab`.
fn place_of(vocab: &Vec<char>, c: char) -> (at: usize)
    requires
        is_ascending(vocab@),
    ensures
        at <= vocab@.len(),
        forall|i: int| 0 <= i < at ==> (#[trigger] vocab@[i] as int) < (c as int),
        forall|i: int| at <= i < vocab@.len() ==> (c as int) <= (#[trigger] vocab@[i] as int),
{
    let mut lo: usize = 0;
    let mut hi: usize = vocab.len();
    while lo < hi
        invariant
            lo <= hi <= vocab@.len(),
            is_ascending(vocab@),
            forall|i: int| 0 <= i < lo ==> (#[trigger] vocab@[i] as int) < (c as int),
            forall|i: int| hi <= i < vocab@.len() ==> (c as int) <= (#[trigger] vocab@[i] as int),
        decreases hi - lo,
    {
        let mid: usize = lo + (hi - lo) / 2;
        if code_of(vocab[mid]) < code_of(c) {
            assert forall|i: int| 0 <= i < mid + 1 implies (#[trigger] vocab@[i] as int) < (
            c as int) by {
                if i < mid {
                    assert((vocab@[i] as int) < (vocab@[mid as int] as int));
                }
            }
            lo = mid + 1;
        } else {
            assert forall|i: int| mid <= i < vocab@.len() implies (c as int) <= (
            #[trigger] vocab@[i] as int) by {
                if mid < i {
                    assert((vocab@[mid as int] as int) < (vocab@[i] as int));
                }
            }
            hi = mid;
        }
    }
    lo
}

/// The unique characters of `text`, in ascending order.
fn vocabulary_of(text: &Vec<char>) -> (vocab: Vec<char>)
    ensures
        is_vocabulary_of(vocab@, text@),
{
    let mut vocab: Vec<char> = Vec::new();
    let mut k: usize = 0;
    while k < text.len()
        invariant
            k <= text@.len(),
            is_vocabulary_of(vocab@, text@.take(k as int)),
        decreases text.len() - k,
    {
        let c = text[k];
        let at = place_of(&vocab, c);
        let ghost before = vocab@;
        if at == vocab.len() || code_of(vocab[at]) != code_of(c) {
            vocab.insert(at, c);
            proof {
                assert forall|i: int, j: int| 0 <= i < j < vocab@.len() implies (
                #[trigger] vocab@[i] as int) < (#[trigger] vocab@[j] as int) by {
                    if i < at && at < j {
                        assert((before[i] as int) < (before[j - 1] as int));
                    } else if at < i {
                        assert((before[i - 1] as int) < (before[j - 1] as int));
                    } else if j < at {
                        assert((before[i] as int) < (before[j] as int));
                    } else if i == at {
                        assert((c as int) <= (before[j - 1] as int));
                        if j - 1 > at {
                            assert((before[at as int] as int) < (before[j - 1] as int));
                        }
                    }
                }
            }
        }
        k += 1;
        proof {
            assert(vocab@[at as int] == c);
            assert forall|d: char| #[trigger] vocab@.contains(d) <==> text@.take(
                k as int,
            ).contains(d) by {
                let head = text@.take(k - 1);
                assert(text@.take(k as int) =~= head.push(c));
                if vocab@.contains(d) && d != c {
                    let i = choose|i: int| 0 <= i < vocab@.len() && vocab@[i] == d;
                    let b = if vocab@.len() == before.len() || i < at {
                        i
                    } else {
                        i - 1
                    };
                    assert(before[b] == d);
                    assert(before.contains(d));
                    let a = choose|a: int| 0 <= a < head.len() && head[a] == d;
                    assert(head.push(c)[a] == d);
                }
                if d == c {
                    assert(head.push(c)[head.len() as int] == c);
                }
                if text@.take(k as int).contains(d) && d != c {
                    let a = choose|a: int| 0 <= a < k && head.push(c)[a] == d;
                    assert(head[a] == d);
                    assert(before.contains(d));
                    let b = choose|b: int| 0 <= b < before.len() && before[b] == d;
                    let i = if vocab@.len() == before.len() || b < at {
                        b
                    } else {
                        b + 1
                    };
                    assert(vocab@[i] == d);
                }
            }
        }
    }
    assert(text@.take(k as int) =~= text@);
    vocab
}

impl Corpus {
    /// Builds a corpus (and its vocabulary) from raw text.
    pub fn from_text(text: &str) -> (corpus: Corpus)
        ensures
            corpus.wf(),
            is_vocabulary_of(corpus.id_to_char@, text@),
            corpus.tokens@ == encoded(corpus.id_to_char@, text@),
            corpus.tokens@.len() == text@.len(),
            forall|k: int|
                0 <= k < text@.len() ==> corpus.id_to_char@[#[trigger] corpus.tokens@[k] as int]
                    == text@[k],
    {
        let chars = chars_of(text);
        let id_to_char = vocabulary_of(&chars);
        let mut char_to_id: BTreeMap<u32, u32> = BTreeMap::new();
        let mut i: usize = 0;
        while i < id_to_char.len()
            invariant
                i <= id_to_char@.len(),
                is_ascending(id_to_char@),
                forall|q: int|
                    0 <= q < i ==> {
                        let key = code(#[trigger] id_to_char@[q]);
                        char_to_id@.contains_key(key) && char_to_id@[key] == q
                    },
                forall|key: u32| #[trigger]
                    char_to_id@.contains_key(key) ==> {
                        let q = char_to_id@[key] as int;
                        q < i && code(id_to_char@[q]) == key
                    },
            decreases id_to_char.len() - i,
        {
            proof {
                lemma_ascending_len(id_to_char@, i as int);
                assert forall|q: int| 0 <= q < i implies code(
                    #[trigger] id_to_char@[q],
                ) != code(id_to_char@[i as int]) by {
                    lemma_code(id_to_char@[q]);
                    lemma_code(id_to_char@[i as int]);
                    assert((id_to_char@[q] as int) < (id_to_char@[i as int] as int));
                }
            }
            char_to_id.insert(code_of(id_to_char[i]), i as u32);
            i += 1;
        }
        let mut tokens: Vec<u32> = Vec::new();
        let mut k: usize = 0;
        proof {
            reveal(Seq::filter);
            assert(chars@.take(0).filter(known(id_to_char@)) =~= Seq::<char>::empty());
        }
        while k < chars.len()
            invariant
                k <= chars@.len(),
                is_vocabulary_of(id_to_char@, chars@),
                forall|q: int|
                    0 <= q < id_to_char@.len() ==> {
                        let key = code(#[trigger] id_to_char@[q]);
                        char_to_id@.contains_key(key) && char_to_id@[key] == q
                    },
                tokens@.len() == k,
                tokens@ == encoded(id_to_char@, chars@.take(k as int)),
                forall|q: int|
                    0 <= q < k ==> {
                        &&& #[trigger] tokens@[q] < id_to_char@.len()
                        &&& id_to_char@[tokens@[q] as int] == chars@[q]
                    },
            decreases chars.len() - k,
        {
            let c = chars[k];
            proof {
                assert(chars@[k as int] == c);
                assert(chars@.contains(c));
                assert(id_to_char@.contains(c));
                lemma_index_of(id_to_char@, id_to_char@.index_of(c));
                lemma_ascending_len(id_to_char@, id_to_char@.index_of(c));
                lemma_encoded_push(id_to_char@, chars@.take(k as int), c);
                assert(chars@.take(k + 1) =~= chars@.take(k as int).push(c));
            }
            let key = code_of(c);
            match char_to_id.get(&key) {
                Some(id) => {
                    tokens.push(*id);
                },
                None => {
                    assert(false);
                },
            }
            k += 1;
        }
        assert(chars@.take(k as int) =~= text@);
        Corpus { tokens, id_to_char, char_to_id }
    }

    pub fn vocab_size(&self) -> (r: usize)
        ensures
            r == self.id_to_char@.len(),
    {
        self.id_to_char.len()
    }

    /// The ids of those characters of `text` that are in the vocabulary.
    pub fn encode(&self, text: &str) -> (ids: Vec<u32>)
        requires
            is_ascending(self.id_to_char@),
            self.is_indexed(),
        ensures
            ids@ == encoded(self.id_to_char@, text@),
            forall|k: int| 0 <= k < ids@.len() ==> #[trigger] ids@[k] < self.id_to_char@.len(),
    {
        let chars = chars_of(text);
        let ghost vocab = self.id_to_char@;
        let mut ids: Vec<u32> = Vec::new();
        let mut k: usize = 0;
        proof {
            reveal(Seq::filter);
            assert(chars@.take(0).filter(known(vocab)) =~= Seq::<char>::empty());
        }
        while k < chars.len()
            invariant
                is_ascending(vocab),
                self.is_indexed(),
                vocab == self.id_to_char@,
                k <= chars@.len(),
                ids@ == encoded(vocab, chars@.take(k as int)),
                forall|q: int| 0 <= q < ids@.len() ==> #[trigger] ids@[q] < vocab.len(),
            decreases chars.len() - k,
        {
            let c = chars[k];
            proof {
                lemma_encoded_push(vocab, chars@.take(k as int), c);
                assert(chars@.take(k + 1) =~= chars@.take(k as int).push(c));
                if vocab.contains(c) {
                    let i = vocab.index_of(c);
                    lemma_index_of(vocab, i);
                    lemma_ascending_len(vocab, i);
                    assert(self.char_to_id@[code(vocab[i])] == i);
                }
            }
            let key = code_of(c);
            match self.char_to_id.get(&key) {
                Some(id) => {
                    proof {
                        lemma_code(vocab[*id as int]);
                    }
                    assert(vocab[*id as int] == c);
                    assert(vocab.contains(c));
                    ids.push(*id);
                },
                None => {},
            }
            k += 1;
        }
        assert(chars@.take(k as int) =~= text@);
        ids
    }

    /// The characters that `ids` stand for.
    pub fn decode(&self, ids: &[u32]) -> (text: String)
        requires
            forall|k: int| 0 <= k < ids@.len() ==> #[trigger] ids@[k] < self.id_to_char@.len(),
        ensures
            text@ == decoded(self.id_to_char@, ids@),
    {
        let mut chars: Vec<char> = Vec::new();
        let mut k: usize = 0;
        while k < ids.len()
            invariant
                k <= ids@.len(),
                forall|q: int|
                    0 <= q < ids@.len() ==> #[trigger] ids@[q] < self.id_to_char@.len(),
                chars@.len() == k,
                forall|q: int|
                    0 <= q < k ==> #[trigger] chars@[q] == self.id_to_char@[ids@[q] as int],
            decreases ids.len() - k,
        {
            chars.push(self.id_to_char[ids[k] as usize]);
            k += 1;
        }
        assert(chars@ =~= decoded(self.id_to_char@, ids@));
        string_of(&chars)
    }

    /// Cross-entropy (nats) of the unigram model, the baseline that a trained
    /// model must beat. Equals the entropy of the empirical char distribution.
    pub fn unigram_cross_entropy<A: Arith>(&self) -> (h: Single)
        requires
            forall|k: int|
                0 <= k < self.tokens@.len() ==> #[trigger] self.tokens@[k] < self.id_to_char@.len(),
        ensures
            deterministic::<A>() ==> h == narrowed::<A>(
                entropy::<A>(self.tokens@, self.id_to_char@.len() as int),
            ),
    {
        let v = self.vocab_size();
        let len = self.tokens.len();
        let mut counts: Vec<u64> = Vec::new();
        let mut i: usize = 0;
        while i < v
            invariant
                i <= v,
                counts@.len() == i,
                forall|q: int| 0 <= q < i ==> #[trigger] counts@[q] == 0,
            decreases v - i,
        {
            counts.push(0);
            i += 1;
        }
        let mut k: usize = 0;
        while k < len
            invariant
                len == self.tokens@.len(),
                k <= len,
                v == self.id_to_char@.len(),
                counts@.len() == v,
                forall|k: int|
                    0 <= k < self.tokens@.len() ==> #[trigger] self.tokens@[k]
                        < self.id_to_char@.len(),
                forall|q: int|
                    0 <= q < v ==> #[trigger] counts@[q] == occurrences(
                        self.tokens@,
                        q,
                        k as int,
                    ),
                forall|q: int| 0 <= q < v ==> #[trigger] counts@[q] <= k,
            decreases len - k,
        {
            let t: usize = self.tokens[k] as usize;
            let ghost before = counts@;
            let count: u64 = counts[t];
            counts.set(t, count + 1);
            k += 1;
            assert forall|q: int| 0 <= q < v implies #[trigger] counts@[q] == occurrences(
                self.tokens@,
                q,
                k as int,
            ) && counts@[q] <= k by {
                assert(before[q] == occurrences(self.tokens@, q, k - 1));
            }
        }
        let total = A::wide_of_count(len as u64);
        let mut h = Double { bits: 0 };
        let mut id: usize = 0;
        while id < v
            invariant
                len == self.tokens@.len(),
                id <= v,
                v == self.id_to_char@.len(),
                counts@.len() == v,
                forall|q: int|
                    0 <= q < v ==> #[trigger] counts@[q] == occurrences(
                        self.tokens@,
                        q,
                        len as int,
                    ),
                deterministic::<A>() ==> total == wide_counted::<A>(len as u64),
                deterministic::<A>() ==> h == entropy::<A>(self.tokens@, id as int),
            decreases v - id,
        {
            let c: u64 = counts[id];
            if c > 0 {
                let p = A::wide_over(A::wide_of_count(c), total);
                h = A::wide_minus(h, A::wide_times(p, A::wide_ln(p)));
            }
            id += 1;
        }
        A::narrow(h)
    }
}

/// Encoding goes character by character.
proof fn lemma_encoded_push(vocab: Seq<char>, text: Seq<char>, c: char)
    ensures
        encoded(vocab, text.push(c)) == if vocab.contains(c) {
            encoded(vocab, text).push(vocab.index_of(c) as u32)
        } else {
            encoded(vocab, text)
        },
{
    reveal(Seq::filter);
    assert(text.push(c).drop_last() =~= text);
    assert(known(vocab)(c) == vocab.contains(c));
    if vocab.contains(c) {
        assert(encoded(vocab, text.push(c)) =~= encoded(vocab, text).push(
            vocab.index_of(c) as u32,
        ));
    }
}

/// Decoding what was encoded gives back the text, without the characters that
/// are not in the vocabulary.
pub proof fn law_decode_undoes_encode(vocab: Seq<char>, text: Seq<char>)
    requires
        is_ascending(vocab),
    ensures
        decoded(vocab, encoded(vocab, text)) == text.filter(known(vocab)),
        (forall|k: int| 0 <= k < text.len() ==> vocab.contains(#[trigger] text[k])) ==> decoded(
            vocab,
            encoded(vocab, text),
        ) == text,
    decreases text.len(),
{
    reveal(Seq::filter);
    if text.len() > 0 {
        let head = text.drop_last();
        let c = text.last();
        law_decode_undoes_encode(vocab, head);
        assert(text =~= head.push(c));
        lemma_encoded_push(vocab, head, c);
        assert(known(vocab)(c) == vocab.contains(c));
        if vocab.contains(c) {
            let i = vocab.index_of(c);
            lemma_index_of(vocab, i);
            lemma_ascending_len(vocab, i);
            assert(decoded(vocab, encoded(vocab, text)) =~= decoded(
                vocab,
                encoded(vocab, head),
            ).push(c));
        }
        if forall|k: int| 0 <= k < text.len() ==> vocab.contains(#[trigger] text[k]) {
            assert(text[text.len() - 1] == c);
            assert forall|k: int| 0 <= k < head.len() implies vocab.contains(
                #[trigger] head[k],
            ) by {
                assert(head[k] == text[k]);
            }
        }
    } else {
        assert(decoded(vocab, encoded(vocab, text)) =~= text);
    }
}

/// Encoding what was decoded gives back the ids.
pub proof fn law_encode_undoes_decode(vocab: Seq<char>, ids: Seq<u32>)
    requires
        is_ascending(vocab),
        forall|k: int| 0 <= k < ids.len() ==> #[trigger] ids[k] < vocab.len(),
    ensures
        encoded(vocab, decoded(vocab, ids)) == ids,
    decreases ids.len(),
{
    reveal(Seq::filter);
    if ids.len() > 0 {
        let head = ids.drop_last();
        let last = ids.last();
        law_encode_undoes_decode(vocab, head);
        let c = vocab[last as int];
        assert(decoded(vocab, ids) =~= decoded(vocab, head).push(c));
        lemma_index_of(vocab, last as int);
        lemma_encoded_push(vocab, decoded(vocab, head), c);
        assert(ids =~= head.push(last));
    } else {
        assert(decoded(vocab, ids) =~= Seq::<char>::empty());
        assert(encoded(vocab, decoded(vocab, ids)) =~= ids);
    }
}

/// A vocabulary holds each distinct character of the text once: its size is the
/// number of distinct characters, and no other sequence is the vocabulary of
/// the same text.
pub proof fn law_vocabulary_is_the_distinct_characters(
    vocab: Seq<char>,
    other: Seq<char>,
    text: Seq<char>,
)
    requires
        is_vocabulary_of(vocab, text),
    ensures
        vocab.no_duplicates(),
        vocab.to_set() == text.to_set(),
        vocab.len() == text.to_set().len(),
        is_vocabulary_of(other, text) ==> other == vocab,
{
    assert forall|i: int, j: int| 0 <= i < vocab.len() && 0 <= j < vocab.len() && i
        != j implies vocab[i] != vocab[j] by {
        if i < j {
            assert((vocab[i] as int) < (vocab[j] as int));
        } else {
            assert((vocab[j] as int) < (vocab[i] as int));
        }
    }
    assert forall|c: char| vocab.to_set().contains(c) == text.to_set().contains(c) by {
        assert(vocab.contains(c) <==> text.contains(c));
    }
    assert(vocab.to_set() =~= text.to_set());
    vocab.unique_seq_to_set();
    if is_vocabulary_of(other, text) {
        assert forall|c: char| vocab.contains(c) == other.contains(c) by {
            assert(vocab.contains(c) <==> text.contains(c));
        }
        lemma_same_prefix(vocab, other, vocab.len() as int);
        lemma_same_prefix(other, vocab, other.len() as int);
        assert(vocab =~= other);
    }
}

/// Two ascending sequences with the same characters agree from the front.
proof fn lemma_same_prefix(a: Seq<char>, b: Seq<char>, n: int)
    requires
        is_ascending(a),
        is_ascending(b),
        forall|c: char| a.contains(c) == b.contains(c),
        0 <= n <= a.len(),
    ensures
        n <= b.len(),
        forall|i: int| 0 <= i < n ==> #[trigger] a[i] == b[i],
    decreases n,
{
    if n > 0 {
        let k = n - 1;
        lemma_same_prefix(a, b, k);
        assert(a.contains(a[k]));
        assert(b.contains(a[k]));
        let j = choose|j: int| 0 <= j < b.len() && b[j] == a[k];
        if j < k {
            assert(a[j] == b[j]);
            assert((a[j] as int) < (a[k] as int));
        }
        if k < j {
            assert(b.contains(b[k]));
            assert(a.contains(b[k]));
            let i = choose|i: int| 0 <= i < a.len() && a[i] == b[k];
            assert((b[k] as int) < (b[j] as int));
            if k < i {
                assert((a[k] as int) < (a[i] as int));
            }
            if i < k {
                assert(a[i] == b[i]);
                assert((b[i] as int) < (b[k] as int));
            }
        }
    }
}

/// Token `k` of a text is the id of its character `k`, where the vocabulary holds
/// all characters of the text.
pub proof fn law_tokens_follow_the_text(vocab: Seq<char>, text: Seq<char>)
    requires
        forall|k: int| 0 <= k < text.len() ==> vocab.contains(#[trigger] text[k]),
    ensures
        encoded(vocab, text).len() == text.len(),
        forall|k: int|
            0 <= k < text.len() ==> #[trigger] encoded(vocab, text)[k] == vocab.index_of(
                text[k],
            ) as u32,
    decreases text.len(),
{
    reveal(Seq::filter);
    if text.len() > 0 {
        let head = text.drop_last();
        let c = text.last();
        assert(text =~= head.push(c));
        assert(text[text.len() - 1] == c);
        assert forall|k: int| 0 <= k < head.len() implies vocab.contains(#[trigger] head[k]) by {
            assert(head[k] == text[k]);
        }
        law_tokens_follow_the_text(vocab, head);
        lemma_encoded_push(vocab, head, c);
        assert forall|k: int| 0 <= k < text.len() implies #[trigger] encoded(vocab, text)[k]
            == vocab.index_of(text[k]) as u32 by {
            if k < head.len() {
                assert(encoded(vocab, head)[k] == vocab.index_of(head[k]) as u32);
            }
        }
    }
}

/// Two texts of the same characters have the same vocabulary, and where they start
/// alike so do their tokens.
pub proof fn law_same_start_same_tokens(
    x: Seq<char>,
    y: Seq<char>,
    vocab_x: Seq<char>,
    vocab_y: Seq<char>,
    n: int,
)
    requires
        is_vocabulary_of(vocab_x, x),
        is_vocabulary_of(vocab_y, y),
        forall|c: char| #[trigger] x.contains(c) <==> y.contains(c),
        0 <= n <= x.len(),
        n <= y.len(),
        x.take(n) == y.take(n),
    ensures
        vocab_x == vocab_y,
        encoded(vocab_x, x).take(n) == encoded(vocab_y, y).take(n),
{
    assert forall|c: char| #[trigger] vocab_x.contains(c) <==> y.contains(c) by {
        assert(x.contains(c) <==> y.contains(c));
    }
    law_vocabulary_is_the_distinct_characters(vocab_y, vocab_x, y);
    assert forall|k: int| 0 <= k < x.len() implies vocab_x.contains(#[trigger] x[k]) by {
        assert(x.contains(x[k]));
    }
    assert forall|k: int| 0 <= k < y.len() implies vocab_x.contains(#[trigger] y[k]) by {
        assert(y.contains(y[k]));
    }
    law_tokens_follow_the_text(vocab_x, x);
    law_tokens_follow_the_text(vocab_x, y);
    assert forall|k: int| 0 <= k < n implies encoded(vocab_x, x)[k] == encoded(
        vocab_x,
        y,
    )[k] by {
        assert(x.take(n)[k] == x[k]);
        assert(y.take(n)[k] == y[k]);
    }
    assert(encoded(vocab_x, x).take(n) =~= encoded(vocab_x, y).take(n));
}

/// An id occurs among the first `n` tokens as often as its character does among
/// the first `n` characters.
proof fn lemma_occurrences(vocab: Seq<char>, text: Seq<char>, id: int, n: int)
    requires
        is_ascending(vocab),
        forall|k: int| 0 <= k < text.len() ==> vocab.contains(#[trigger] text[k]),
        0 <= id < vocab.len(),
        0 <= n <= text.len(),
    ensures
        occurrences(encoded(vocab, text), id, n) == text.take(n).to_multiset().count(vocab[id]),
    decreases n,
{
    law_tokens_follow_the_text(vocab, text);
    text.take(n).to_multiset_ensures();
    if n > 0 {
        lemma_occurrences(vocab, text, id, n - 1);
        let before = text.take(n - 1);
        let c = text[n - 1];
        before.to_multiset_ensures();
        assert(text.take(n) =~= before.push(c));
        assert(vocab.contains(c));
        let at = vocab.index_of(c);
        lemma_index_of(vocab, at);
        lemma_index_of(vocab, id);
        lemma_ascending_len(vocab, at);
        assert(encoded(vocab, text)[n - 1] == at as u32);
        assert((c == vocab[id]) == (at == id));
    } else {
        assert(text.take(0) =~= Seq::<char>::empty());
    }
}

/// The entropy goes by how often each character occurs: reordering the text
/// changes neither the vocabulary nor the entropy.
pub proof fn law_entropy_ignores_order<A: Arith>(
    x: Seq<char>,
    y: Seq<char>,
    vocab_x: Seq<char>,
    vocab_y: Seq<char>,
)
    requires
        x.to_multiset() == y.to_multiset(),
        is_vocabulary_of(vocab_x, x),
        is_vocabulary_of(vocab_y, y),
    ensures
        vocab_x == vocab_y,
        entropy::<A>(encoded(vocab_x, x), vocab_x.len() as int) == entropy::<A>(
            encoded(vocab_y, y),
            vocab_y.len() as int,
        ),
{
    x.to_multiset_ensures();
    y.to_multiset_ensures();
    assert forall|c: char| #[trigger] vocab_x.contains(c) <==> y.contains(c) by {
        assert(vocab_x.contains(c) <==> x.contains(c));
        assert(x.contains(c) <==> x.to_multiset().count(c) > 0);
        assert(y.contains(c) <==> y.to_multiset().count(c) > 0);
    }
    law_vocabulary_is_the_distinct_characters(vocab_y, vocab_x, y);
    assert forall|k: int| 0 <= k < x.len() implies vocab_x.contains(#[trigger] x[k]) by {
        assert(x.contains(x[k]));
    }
    assert forall|k: int| 0 <= k < y.len() implies vocab_x.contains(#[trigger] y[k]) by {
        assert(y.contains(y[k]));
    }
    assert(x.take(x.len() as int) =~= x);
    assert(y.take(y.len() as int) =~= y);
    law_tokens_follow_the_text(vocab_x, x);
    law_tokens_follow_the_text(vocab_x, y);
    assert forall|id: int| 0 <= id < vocab_x.len() implies #[trigger] occurrences(
        encoded(vocab_x, x),
        id,
        x.len() as int,
    ) == occurrences(encoded(vocab_x, y), id, x.len() as int) by {
        lemma_occurrences(vocab_x, x, id, x.len() as int);
        lemma_occurrences(vocab_x, y, id, y.len() as int);
    }
    lemma_same_entropy::<A>(encoded(vocab_x, x), encoded(vocab_x, y), vocab_x.len() as int);
}

proof fn lemma_same_entropy<A: Arith>(x: Seq<u32>, y: Seq<u32>, ids: int)
    requires
        x.len() == y.len(),
        forall|id: int|
            0 <= id < ids ==> #[trigger] occurrences(x, id, x.len() as int) == occurrences(
                y,
                id,
                x.len() as int,
            ),
    ensures
        entropy::<A>(x, ids) == entropy::<A>(y, ids),
    decreases ids,
{
    if ids > 0 {
        lemma_same_entropy::<A>(x, y, ids - 1);
        assert(occurrences(x, ids - 1, x.len() as int) == occurrences(
            y,
            ids - 1,
            x.len() as int,
        ));
    }
}

/// A text of one distinct character has a single term in its entropy, that of a
/// share of all in all.
pub proof fn law_entropy_of_one_character<A: Arith>(text: Seq<char>, vocab: Seq<char>)
    requires
        is_vocabulary_of(vocab, text),
        vocab.len() == 1,
    ensures
        ({
            let n = wide_counted::<A>(text.len() as u64);
            let p = wide_quotient::<A>(n, n);
            entropy::<A>(encoded(vocab, text), 1) == wide_difference::<A>(
                wide_nought(),
                wide_product::<A>(p, wide_logarithm::<A>(p)),
            )
        }),
{
    assert forall|k: int| 0 <= k < text.len() implies vocab.contains(#[trigger] text[k]) by {
        assert(text.contains(text[k]));
    }
    law_tokens_follow_the_text(vocab, text);
    let tokens = encoded(vocab, text);
    assert forall|k: int| 0 <= k < tokens.len() implies #[trigger] tokens[k] == 0 by {
        assert(vocab.contains(text[k]));
        assert(vocab[vocab.index_of(text[k])] == text[k]);
    }
    lemma_all_occur(tokens, tokens.len() as int);
    assert(vocab.contains(vocab[0]));
    assert(text.contains(vocab[0]));
    assert(text.len() > 0);
    reveal_with_fuel(entropy, 2);
}

proof fn lemma_all_occur(tokens: Seq<u32>, n: int)
    requires
        0 <= n <= tokens.len(),
        forall|k: int| 0 <= k < tokens.len() ==> #[trigger] tokens[k] == 0,
    ensures
        occurrences(tokens, 0, n) == n,
    decreases n,
{
    if n > 0 {
        lemma_all_occur(tokens, n - 1);
        assert(tokens[n - 1] == 0);
    }
}

/// The entropy takes off, for each id that occurs, its share of the tokens times the
/// logarithm of that share: `partial[k]` is what is left of zero after the first `k`
/// ids.
pub proof fn law_entropy_is_of_the_shares<A: Arith>(
    tokens: Seq<u32>,
    ids: int,
    partial: Seq<Double>,
)
    requires
        0 <= ids <= u32::MAX,
        partial.len() == ids + 1,
        partial[0] == wide_nought(),
        forall|k: int|
            0 < k <= ids ==> #[trigger] partial[k] == {
                let count = tokens.to_multiset().count((k - 1) as u32);
                let p = wide_quotient::<A>(
                    wide_counted::<A>(count as u64),
                    wide_counted::<A>(tokens.len() as u64),
                );
                if count == 0 {
                    partial[k - 1]
                } else {
                    wide_difference::<A>(
                        partial[k - 1],
                        wide_product::<A>(p, wide_logarithm::<A>(p)),
                    )
                }
            },
    ensures
        entropy::<A>(tokens, ids) == partial.last(),
{
    lemma_entropy_adds_up::<A>(tokens, ids, partial, ids);
}

proof fn lemma_entropy_adds_up<A: Arith>(
    tokens: Seq<u32>,
    ids: int,
    partial: Seq<Double>,
    n: int,
)
    requires
        0 <= n <= ids <= u32::MAX,
        partial.len() == ids + 1,
        partial[0] == wide_nought(),
        forall|k: int|
            0 < k <= ids ==> #[trigger] partial[k] == {
                let count = tokens.to_multiset().count((k - 1) as u32);
                let p = wide_quotient::<A>(
                    wide_counted::<A>(count as u64),
                    wide_counted::<A>(tokens.len() as u64),
                );
                if count == 0 {
                    partial[k - 1]
                } else {
                    wide_difference::<A>(
                        partial[k - 1],
                        wide_product::<A>(p, wide_logarithm::<A>(p)),
                    )
                }
            },
    ensures
        entropy::<A>(tokens, n) == partial[n],
    decreases n,
{
    if n > 0 {
        lemma_entropy_adds_up::<A>(tokens, ids, partial, n - 1);
        law_occurrences_are_counted(tokens, (n - 1) as u32, tokens.len() as int);
        assert(tokens.take(tokens.len() as int) =~= tokens);
        let count = tokens.to_multiset().count((n - 1) as u32);
        assert(partial[n] == {
            let p = wide_quotient::<A>(
                wide_counted::<A>(count as u64),
                wide_counted::<A>(tokens.len() as u64),
            );
            if count == 0 {
                partial[n - 1]
            } else {
                wide_difference::<A>(
                    partial[n - 1],
                    wide_product::<A>(p, wide_logarithm::<A>(p)),
                )
            }
        });
    }
}

/// How often an id occurs is how often it is among the tokens.
pub proof fn law_occurrences_are_counted(tokens: Seq<u32>, id: u32, n: int)
    requires
        0 <= n <= tokens.len(),
    ensures
        occurrences(tokens, id as int, n) == tokens.take(n).to_multiset().count(id),
    decreases n,
{
    tokens.take(n).to_multiset_ensures();
    if n > 0 {
        law_occurrences_are_counted(tokens, id, n - 1);
        let before = tokens.take(n - 1);
        before.to_multiset_ensures();
        assert(tokens.take(n) =~= before.push(tokens[n - 1]));
    } else {
        assert(tokens.take(0) =~= Seq::<u32>::empty());
    }
}

/// Decoding is letter by letter, and encoding passes over what is not in the
/// vocabulary.
pub proof fn law_texts_are_coded_letter_by_letter(
    vocab: Seq<char>,
    text: Seq<char>,
    c: char,
    ids: Seq<u32>,
    id: u32,
)
    ensures
        decoded(vocab, ids.push(id)) == decoded(vocab, ids).push(vocab[id as int]),
        vocab.contains(c) ==> encoded(vocab, text.push(c)) == encoded(vocab, text).push(
            vocab.index_of(c) as u32,
        ),
        !vocab.contains(c) ==> encoded(vocab, text.push(c)) == encoded(vocab, text),
        encoded(vocab, Seq::empty()).len() == 0,
        decoded(vocab, Seq::empty()).len() == 0,
{
    reveal(Seq::filter);
    assert(text.push(c).drop_last() =~= text);
    assert(decoded(vocab, ids.push(id)) =~= decoded(vocab, ids).push(vocab[id as int]));
    if vocab.contains(c) {
        assert(encoded(vocab, text.push(c)) =~= encoded(vocab, text).push(
            vocab.index_of(c) as u32,
        ));
    } else {
        assert(encoded(vocab, text.push(c)) =~= encoded(vocab, text));
    }
}

/// A vocabulary goes by scalar values, the smallest first, and holds the characters of
/// the text and no others.
pub proof fn law_vocabulary_is_in_order(vocab: Seq<char>, text: Seq<char>, i: int, j: int)
    requires
        is_vocabulary_of(vocab, text),
        0 <= i < j < vocab.len(),
    ensures
        (vocab[i] as int) < (vocab[j] as int),
        text.contains(vocab[i]),
        forall|k: int| 0 <= k < text.len() ==> vocab.contains(#[trigger] text[k]),
{
    assert(vocab.contains(vocab[i]));
    assert forall|k: int| 0 <= k < text.len() implies vocab.contains(#[trigger] text[k]) by {
        assert(text.contains(text[k]));
    }
}

} // verus!
