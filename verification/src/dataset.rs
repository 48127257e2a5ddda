//! Character-level tokenizer: one token per character, ids are positions in
//! the vocabulary.
use std::collections::HashMap;
use vstd::prelude::*;

use crate::text::{chars_of, string_from_chars};

verus! {

broadcast use vstd::std_specs::hash::group_hash_axioms;

/// The position of the last occurrence of `c` in `vocab`, if `c` occurs.
pub open spec fn token_id(vocab: Seq<char>, c: char) -> Option<int>
    decreases vocab.len(),
{
    if vocab.len() == 0 {
        None
    } else if vocab.last() == c {
        Some(vocab.len() - 1)
    } else {
        token_id(vocab.drop_last(), c)
    }
}

/// The token ids of the characters of `s` that occur in `vocab`, in order;
/// other characters are dropped.
pub open spec fn encode_spec(vocab: Seq<char>, s: Seq<char>) -> Seq<i64>
    decreases s.len(),
{
    if s.len() == 0 {
        Seq::empty()
    } else {
        let prev = encode_spec(vocab, s.drop_last());
        match token_id(vocab, s.last()) {
            Some(i) => prev.push(i as i64),
            None => prev,
        }
    }
}

/// The characters named by the ids in `ids` that are positions of `vocab`;
/// other ids are dropped.
pub open spec fn decode_spec(vocab: Seq<char>, ids: Seq<i64>) -> Seq<char>
    decreases ids.len(),
{
    if ids.len() == 0 {
        Seq::empty()
    } else {
        let prev = decode_spec(vocab, ids.drop_last());
        let i = ids.last();
        if 0 <= i < vocab.len() {
            prev.push(vocab[i as int])
        } else {
            prev
        }
    }
}

/// The characters of `s` that occur in `vocab`, in order.
pub open spec fn known_chars(vocab: Seq<char>, s: Seq<char>) -> Seq<char>
    decreases s.len(),
{
    if s.len() == 0 {
        Seq::empty()
    } else {
        let prev = known_chars(vocab, s.drop_last());
        if vocab.contains(s.last()) {
            prev.push(s.last())
        } else {
            prev
        }
    }
}

/// Every element is smaller than every later one: sorted, with no repeats.
pub open spec fn strictly_increasing(s: Seq<char>) -> bool {
    forall|i: int, j: int| 0 <= i < j < s.len() ==> s[i] < s[j]
}

/// No character occurs twice.
pub open spec fn all_distinct(s: Seq<char>) -> bool {
    forall|i: int, j: int| 0 <= i < s.len() && 0 <= j < s.len() && i != j ==> s[i] != s[j]
}

/// `token_id` is the last position holding `c`.
pub proof fn lemma_token_id(vocab: Seq<char>, c: char)
    ensures
        token_id(vocab, c) is None <==> !vocab.contains(c),
        token_id(vocab, c) matches Some(i) ==> {
            &&& 0 <= i < vocab.len()
            &&& vocab[i] == c
            &&& forall|j: int| i < j < vocab.len() ==> vocab[j] != c
        },
    decreases vocab.len(),
{
    if vocab.len() > 0 {
        lemma_token_id(vocab.drop_last(), c);
        if vocab.last() != c {
            if vocab.contains(c) {
                let k = choose|k: int| 0 <= k < vocab.len() && vocab[k] == c;
                assert(vocab.drop_last()[k] == c);
            }
            if let Some(i) = token_id(vocab, c) {
                assert(vocab[i] == vocab.drop_last()[i]);
                assert forall|j: int| i < j < vocab.len() implies vocab[j] != c by {
                    if j < vocab.len() - 1 {
                        assert(vocab[j] == vocab.drop_last()[j]);
                    }
                }
            }
        } else {
            assert(vocab[vocab.len() - 1] == c);
        }
    }
}

/// In a vocabulary without repeats, the id of `vocab[i]` is `i`.
pub proof fn lemma_token_id_distinct(vocab: Seq<char>, i: int)
    requires
        all_distinct(vocab),
        0 <= i < vocab.len(),
    ensures
        token_id(vocab, vocab[i]) == Some(i),
{
    lemma_token_id(vocab, vocab[i]);
    assert(vocab.contains(vocab[i]));
}

/// Distinct characters have distinct code points.
pub proof fn lemma_code_point_injective(c: char, d: char)
    ensures
        (c as u32 == d as u32) <==> (c == d),
{
    assert(c as u32 as int == c as int);
    assert(d as u32 as int == d as int);
}

/// Decoding the encoding of any text gives back exactly the characters of the
/// text that are in the vocabulary, in order.
pub proof fn lemma_decode_encode(vocab: Seq<char>, s: Seq<char>)
    requires
        vocab.len() <= i64::MAX,
    ensures
        decode_spec(vocab, encode_spec(vocab, s)) == known_chars(vocab, s),
    decreases s.len(),
{
    if s.len() > 0 {
        lemma_decode_encode(vocab, s.drop_last());
        let prev = encode_spec(vocab, s.drop_last());
        lemma_token_id(vocab, s.last());
        if let Some(i) = token_id(vocab, s.last()) {
            let ids = prev.push(i as i64);
            assert(ids.drop_last() =~= prev);
        }
    }
}

/// Encoding works character by character: the encoding of two texts put
/// together is the two encodings put together.
pub proof fn lemma_encode_concat(vocab: Seq<char>, a: Seq<char>, b: Seq<char>)
    ensures
        encode_spec(vocab, a + b) == encode_spec(vocab, a) + encode_spec(vocab, b),
    decreases b.len(),
{
    if b.len() == 0 {
        assert(a + b =~= a);
        assert(encode_spec(vocab, a) + encode_spec(vocab, b) =~= encode_spec(vocab, a));
    } else {
        lemma_encode_concat(vocab, a, b.drop_last());
        assert((a + b).drop_last() =~= a + b.drop_last());
        assert((a + b).last() == b.last());
        let ea = encode_spec(vocab, a);
        let eb = encode_spec(vocab, b.drop_last());
        if let Some(i) = token_id(vocab, b.last()) {
            assert(ea + eb.push(i as i64) =~= (ea + eb).push(i as i64));
        }
    }
}

/// Decoding works id by id: the decoding of two id lists put together is the
/// two decodings put together.
pub proof fn lemma_decode_concat(vocab: Seq<char>, a: Seq<i64>, b: Seq<i64>)
    ensures
        decode_spec(vocab, a + b) == decode_spec(vocab, a) + decode_spec(vocab, b),
    decreases b.len(),
{
    if b.len() == 0 {
        assert(a + b =~= a);
        assert(decode_spec(vocab, a) + decode_spec(vocab, b) =~= decode_spec(vocab, a));
    } else {
        lemma_decode_concat(vocab, a, b.drop_last());
        assert((a + b).drop_last() =~= a + b.drop_last());
        assert((a + b).last() == b.last());
        let da = decode_spec(vocab, a);
        let db = decode_spec(vocab, b.drop_last());
        let i = b.last();
        if 0 <= i < vocab.len() {
            assert(da + db.push(vocab[i as int]) =~= (da + db).push(vocab[i as int]));
        }
    }
}

/// Encoding gives one id per character of the text that is in the
/// vocabulary.
pub proof fn lemma_encode_len_is_known_len(vocab: Seq<char>, s: Seq<char>)
    ensures
        encode_spec(vocab, s).len() == known_chars(vocab, s).len(),
    decreases s.len(),
{
    if s.len() > 0 {
        lemma_encode_len_is_known_len(vocab, s.drop_last());
        lemma_token_id(vocab, s.last());
    }
}

/// Every id produced by encoding is a position of the vocabulary.
pub proof fn lemma_encode_in_range(vocab: Seq<char>, s: Seq<char>)
    requires
        vocab.len() <= i64::MAX,
    ensures
        forall|k: int|
            0 <= k < encode_spec(vocab, s).len() ==> 0 <= #[trigger] encode_spec(vocab, s)[k]
                < vocab.len(),
    decreases s.len(),
{
    if s.len() > 0 {
        lemma_encode_in_range(vocab, s.drop_last());
        lemma_token_id(vocab, s.last());
        let prev = encode_spec(vocab, s.drop_last());
        assert forall|k: int|
            0 <= k < encode_spec(vocab, s).len() implies 0 <= #[trigger] encode_spec(vocab, s)[k]
                < vocab.len() by {
            if k < prev.len() {
                assert(encode_spec(vocab, s)[k] == prev[k]);
            }
        }
    }
}

/// With a vocabulary in which no character repeats, encoding the decoding of
/// ids that are all positions of the vocabulary gives back the same ids.
pub proof fn lemma_encode_decode(vocab: Seq<char>, ids: Seq<i64>)
    requires
        vocab.len() <= i64::MAX,
        all_distinct(vocab),
        forall|k: int| 0 <= k < ids.len() ==> 0 <= #[trigger] ids[k] < vocab.len(),
    ensures
        encode_spec(vocab, decode_spec(vocab, ids)) == ids,
    decreases ids.len(),
{
    if ids.len() > 0 {
        let last = ids.last();
        assert(0 <= ids[ids.len() - 1] < vocab.len());
        assert forall|k: int| 0 <= k < ids.drop_last().len() implies 0 <= #[trigger] ids.drop_last()[k]
            < vocab.len() by {
            assert(ids.drop_last()[k] == ids[k]);
        }
        lemma_encode_decode(vocab, ids.drop_last());
        let text = decode_spec(vocab, ids);
        let prev = decode_spec(vocab, ids.drop_last());
        assert(text == prev.push(vocab[last as int]));
        assert(text.drop_last() =~= prev);
        lemma_token_id_distinct(vocab, last as int);
        assert(ids =~= ids.drop_last().push(last));
    }
}

/// A sorted vocabulary without repeats has no repeats.
pub proof fn lemma_increasing_distinct(s: Seq<char>)
    requires
        strictly_increasing(s),
    ensures
        all_distinct(s),
{
    assert forall|i: int, j: int|
        0 <= i < s.len() && 0 <= j < s.len() && i != j implies s[i] != s[j] by {
        if i < j {
            assert(s[i] < s[j]);
        } else {
            assert(s[j] < s[i]);
        }
    }
}

/// When every character of `s` is in the vocabulary, none is dropped.
pub proof fn lemma_known_chars_all(vocab: Seq<char>, s: Seq<char>)
    requires
        forall|k: int| 0 <= k < s.len() ==> vocab.contains(#[trigger] s[k]),
    ensures
        known_chars(vocab, s) == s,
    decreases s.len(),
{
    if s.len() > 0 {
        assert forall|k: int| 0 <= k < s.drop_last().len() implies vocab.contains(
            #[trigger] s.drop_last()[k],
        ) by {
            assert(s.drop_last()[k] == s[k]);
        }
        lemma_known_chars_all(vocab, s.drop_last());
        assert(vocab.contains(s[s.len() - 1]));
        assert(s =~= s.drop_last().push(s.last()));
    }
}

/// A tokenizer built from a text reproduces that text: every character of the
/// text is in the vocabulary, so decoding its encoding gives the text back, and
/// every id is a position of the vocabulary.
pub proof fn lemma_from_text_roundtrip(vocab: Seq<char>, text: Seq<char>)
    requires
        vocab.len() <= i64::MAX,
        strictly_increasing(vocab),
        forall|c: char| vocab.contains(c) <==> text.contains(c),
    ensures
        decode_spec(vocab, encode_spec(vocab, text)) == text,
        encode_spec(vocab, text).len() == text.len(),
        all_distinct(vocab),
{
    assert forall|k: int| 0 <= k < text.len() implies vocab.contains(#[trigger] text[k]) by {
        assert(text.contains(text[k]));
    }
    lemma_known_chars_all(vocab, text);
    lemma_decode_encode(vocab, text);
    lemma_increasing_distinct(vocab);
    lemma_encode_len_all_known(vocab, text);
}

proof fn lemma_encode_len_all_known(vocab: Seq<char>, s: Seq<char>)
    requires
        forall|k: int| 0 <= k < s.len() ==> vocab.contains(#[trigger] s[k]),
    ensures
        encode_spec(vocab, s).len() == s.len(),
    decreases s.len(),
{
    if s.len() > 0 {
        assert forall|k: int| 0 <= k < s.drop_last().len() implies vocab.contains(
            #[trigger] s.drop_last()[k],
        ) by {
            assert(s.drop_last()[k] == s[k]);
        }
        lemma_encode_len_all_known(vocab, s.drop_last());
        assert(vocab.contains(s[s.len() - 1]));
        lemma_token_id(vocab, s.last());
    }
}

/// A tokenizer rebuilt from the vocabulary string that another one persisted
/// has the same vocabulary, so it encodes and decodes every input alike.
pub proof fn lemma_persisted_vocab_roundtrip(
    original: CharTokenizer,
    saved: Seq<char>,
    rebuilt: CharTokenizer,
)
    requires
        saved == original@,
        rebuilt@ == saved,
    ensures
        rebuilt@ == original@,
        forall|s: Seq<char>| encode_spec(rebuilt@, s) == encode_spec(original@, s),
        forall|ids: Seq<i64>| decode_spec(rebuilt@, ids) == decode_spec(original@, ids),
{
}

/// Maps each character of a vocabulary (by its code point) to its id.
pub open spec fn index_map_ok(vocab: Seq<char>, stoi: Map<u32, usize>) -> bool {
    &&& forall|k: u32| #[trigger]
        stoi.contains_key(k) <==> exists|i: int| 0 <= i < vocab.len() && vocab[i] as u32 == k
    &&& forall|c: char|
        stoi.contains_key(c as u32) ==> #[trigger] token_id(vocab, c) == Some(
            stoi[c as u32] as int,
        )
}

/// A character-level tokenizer. The vocabulary, in id order, is its view:
/// `vocab[id] == char`. Its index from characters to ids is kept in step.
#[derive(Debug)]
pub struct CharTokenizer {
    vocab: Vec<char>,
    stoi: HashMap<u32, usize>,
}

impl View for CharTokenizer {
    type V = Seq<char>;

    closed spec fn view(&self) -> Seq<char> {
        self.vocab@
    }
}

impl Clone for CharTokenizer {
    /// A tokenizer with the same vocabulary.
    fn clone(&self) -> (t: Self)
        ensures
            t@ == self@,
    {
        proof {
            use_type_invariant(self);
        }
        let vocab = self.vocab.clone();
        let stoi = self.stoi.clone();
        proof {
            assert(vocab@ =~= self.vocab@);
        }
        CharTokenizer { vocab, stoi }
    }
}

impl CharTokenizer {
    #[verifier::type_invariant]
    spec fn well_formed(self) -> bool {
        &&& index_map_ok(self.vocab@, self.stoi@)
        &&& self.vocab@.len() <= i64::MAX
    }

    /// A tokenizer whose vocabulary is `vocab`, in that order. A character
    /// that occurs twice encodes to its last position.
    pub fn from_vocab(vocab: Vec<char>) -> (t: Self)
        requires
            vocab@.len() <= i64::MAX,
        ensures
            t@ == vocab@,
    {
        let mut stoi: HashMap<u32, usize> = HashMap::new();
        let n = vocab.len();
        for i in 0..n
            invariant
                n == vocab.len(),
                index_map_ok(vocab@.take(i as int), stoi@),
        {
            let ghost pre = vocab@.take(i as int);
            let ghost post = vocab@.take(i + 1);
            let c = vocab[i];
            let ghost old_stoi = stoi@;
            stoi.insert(c as u32, i);
            proof {
                assert(post.drop_last() =~= pre);
                assert(post.last() == c);
                assert forall|k: u32| #[trigger]
                    stoi@.contains_key(k) <==> exists|j: int| 0 <= j < post.len() && post[j] as u32 == k by {
                    if stoi@.contains_key(k) && k != c as u32 {
                        let j = choose|j: int| 0 <= j < pre.len() && pre[j] as u32 == k;
                        assert(post[j] == pre[j]);
                    }
                    if exists|j: int| 0 <= j < post.len() && post[j] as u32 == k {
                        let j = choose|j: int| 0 <= j < post.len() && post[j] as u32 == k;
                        if j < pre.len() {
                            assert(post[j] == pre[j]);
                        } else {
                            assert(post[j] == c);
                        }
                    }
                }
                assert forall|d: char| stoi@.contains_key(d as u32) implies #[trigger] token_id(
                    post,
                    d,
                ) == Some(stoi@[d as u32] as int) by {
                    if d == c {
                    } else {
                        lemma_code_point_injective(c, d);
                        assert(old_stoi.contains_key(d as u32));
                        assert(token_id(pre, d) == Some(old_stoi[d as u32] as int));
                    }
                }
            }
        }
        proof {
            assert(vocab@.take(n as int) =~= vocab@);
        }
        CharTokenizer { vocab, stoi }
    }
    /// Builds a tokenizer from text: the vocabulary is the set of characters
    /// of `text`, sorted, each once.
    pub fn from_text(text: &str) -> (t: Self)
        ensures
            strictly_increasing(t@),
            forall|c: char| t@.contains(c) <==> text@.contains(c),
            t@.len() <= 0x110000,
    {
        let chars = chars_of(text);
        let mut vocab: Vec<char> = Vec::new();
        let n = chars.len();
        for k in 0..n
            invariant
                n == chars@.len(),
                chars@ == text@,
                strictly_increasing(vocab@),
                forall|c: char| vocab@.contains(c) <==> chars@.take(k as int).contains(c),
        {
            let c = chars[k];
            let p = insertion_point(&vocab, c);
            let ghost before = vocab@;
            if p < vocab.len() && vocab[p] == c {
            } else {
                vocab.insert(p, c);
                proof {
                    assert forall|i: int, j: int| 0 <= i < j < vocab@.len() implies vocab@[i]
                        < vocab@[j] by {
                        if j < p {
                            assert(vocab@[i] == before[i] && vocab@[j] == before[j]);
                        } else if j == p {
                            assert(vocab@[i] == before[i]);
                        } else if i < p {
                            assert(vocab@[i] == before[i] && vocab@[j] == before[j - 1]);
                        } else if i == p {
                            assert(vocab@[j] == before[j - 1]);
                            assert(c <= before[p as int]);
                        } else {
                            assert(vocab@[i] == before[i - 1] && vocab@[j] == before[j - 1]);
                        }
                    }
                }
            }
            proof {
                let pre = chars@.take(k as int);
                let post = chars@.take(k + 1);
                assert(post =~= pre.push(c));
                assert forall|d: char| vocab@.contains(d) <==> post.contains(d) by {
                    if vocab@.contains(d) {
                        let i = choose|i: int| 0 <= i < vocab@.len() && vocab@[i] == d;
                        if d != c {
                            if vocab@.len() > before.len() {
                                if i < p {
                                    assert(before[i] == d);
                                } else {
                                    assert(before[i - 1] == d);
                                }
                            }
                            assert(before.contains(d));
                            let j = choose|j: int| 0 <= j < pre.len() && pre[j] == d;
                            assert(post[j] == d);
                        } else {
                            assert(post[k as int] == c);
                        }
                    }
                    if post.contains(d) {
                        let j = choose|j: int| 0 <= j < post.len() && post[j] == d;
                        if j < k {
                            assert(pre[j] == d);
                            assert(before.contains(d));
                            let i = choose|i: int| 0 <= i < before.len() && before[i] == d;
                            if vocab@.len() > before.len() {
                                if i < p {
                                    assert(vocab@[i] == d);
                                } else {
                                    assert(vocab@[i + 1] == d);
                                }
                            } else {
                                assert(vocab@[i] == d);
                            }
                        } else {
                            assert(vocab@[p as int] == c);
                        }
                    }
                }
            }
        }
        proof {
            assert(chars@.take(n as int) =~= chars@);
            lemma_increasing_len_bound(vocab@);
        }
        Self::from_vocab(vocab)
    }

    /// Rebuilds a tokenizer from a saved vocabulary string (characters in id
    /// order).
    pub fn from_vocab_string(vocab: &str) -> (t: Self)
        requires
            vocab@.len() <= i64::MAX,
        ensures
            t@ == vocab@,
    {
        Self::from_vocab(chars_of(vocab))
    }

    /// The vocabulary as one string, characters in id order: what is
    /// persisted.
    pub fn vocab_string(&self) -> (s: String)
        ensures
            s@ == self@,
    {
        string_from_chars(self.vocab.as_slice())
    }

    /// The number of tokens.
    pub fn vocab_size(&self) -> (n: usize)
        ensures
            n == self@.len(),
            n <= i64::MAX,
    {
        proof {
            use_type_invariant(self);
        }
        self.vocab.len()
    }

    /// Encodes text to token ids, silently dropping characters that are not
    /// in the vocabulary.
    pub fn encode(&self, s: &str) -> (ids: Vec<i64>)
        ensures
            ids@ == encode_spec(self@, s@),
    {
        proof {
            use_type_invariant(self);
        }
        let chars = chars_of(s);
        let n = chars.len();
        let mut ids: Vec<i64> = Vec::new();
        for k in 0..n
            invariant
                n == chars@.len(),
                chars@ == s@,
                index_map_ok(self.vocab@, self.stoi@),
                self.vocab@.len() <= i64::MAX,
                ids@ == encode_spec(self.vocab@, chars@.take(k as int)),
        {
            let c = chars[k];
            proof {
                assert(chars@.take(k + 1).drop_last() =~= chars@.take(k as int));
                lemma_token_id(self.vocab@, c);
            }
            match self.stoi.get(&(c as u32)) {
                Some(i) => {
                    proof {
                        assert(self.stoi@.contains_key(c as u32));
                        assert(self.stoi@[c as u32] == *i);
                        assert(token_id(self.vocab@, c) == Some(*i as int));
                    }
                    ids.push(*i as i64);
                },
                None => {
                    proof {
                        if self.vocab@.contains(c) {
                            let j = choose|j: int| 0 <= j < self.vocab@.len() && self.vocab@[j] == c;
                            assert(self.vocab@[j] as u32 == c as u32);
                            assert(self.stoi@.contains_key(c as u32));
                        }
                    }
                },
            }
        }
        proof {
            assert(chars@.take(n as int) =~= chars@);
        }
        ids
    }

    /// Decodes token ids back to text, dropping ids that are not positions of
    /// the vocabulary.
    pub fn decode(&self, ids: &[i64]) -> (s: String)
        ensures
            s@ == decode_spec(self@, ids@),
    {
        let n = ids.len();
        let mut out: Vec<char> = Vec::new();
        for k in 0..n
            invariant
                n == ids@.len(),
                out@ == decode_spec(self.vocab@, ids@.take(k as int)),
        {
            let i = ids[k];
            proof {
                assert(ids@.take(k + 1).drop_last() =~= ids@.take(k as int));
            }
            if 0 <= i {
                let u = i as u64;
                if u < self.vocab.len() as u64 {
                    out.push(self.vocab[u as usize]);
                }
            }
        }
        proof {
            assert(ids@.take(n as int) =~= ids@);
        }
        string_from_chars(out.as_slice())
    }
}

/// The first position of `v` whose character is not smaller than `c`.
fn insertion_point(v: &Vec<char>, c: char) -> (p: usize)
    requires
        strictly_increasing(v@),
    ensures
        p <= v.len(),
        forall|i: int| 0 <= i < p ==> v@[i] < c,
        forall|i: int| p <= i < v.len() ==> c <= v@[i],
{
    let mut lo: usize = 0;
    let mut hi: usize = v.len();
    while lo < hi
        invariant
            lo <= hi <= v.len(),
            strictly_increasing(v@),
            forall|i: int| 0 <= i < lo ==> v@[i] < c,
            forall|i: int| hi <= i < v.len() ==> c <= v@[i],
        decreases hi - lo,
    {
        let mid = lo + (hi - lo) / 2;
        if v[mid] < c {
            lo = mid + 1;
        } else {
            hi = mid;
        }
    }
    lo
}

proof fn lemma_char_range(c: char)
    ensures
        0 <= c as int <= 0x10FFFF,
{
}

proof fn lemma_char_order(c: char, d: char)
    ensures
        c < d ==> (c as int) < (d as int),
{
}

/// A strictly increasing sequence of characters is no longer than the number
/// of code points.
proof fn lemma_increasing_len_bound(s: Seq<char>)
    requires
        strictly_increasing(s),
    ensures
        s.len() <= 0x110000,
{
    if s.len() > 0x110000 {
        assert forall|i: int| 0 <= i < s.len() implies (s[i] as int) >= i by {
            lemma_increasing_at_least(s, i);
        }
        lemma_char_range(s[0x110000]);
    }
}

proof fn lemma_increasing_at_least(s: Seq<char>, i: int)
    requires
        strictly_increasing(s),
        0 <= i < s.len(),
    ensures
        s[i] as int >= i,
    decreases i,
{
    lemma_char_range(s[i]);
    if i > 0 {
        lemma_increasing_at_least(s, i - 1);
        lemma_char_order(s[i - 1], s[i]);
    }
}


} // verus!
