//! The integer side of text generation: seeding and cropping the context, and
//! choosing the candidates that the next token is drawn from.
use vstd::prelude::*;

use crate::dataset::{encode_spec, known_chars, lemma_encode_len_is_known_len, CharTokenizer};

verus! {

/// The context that generation starts from: the encoded prompt, or the single
/// token 0 when nothing of the prompt is in the vocabulary.
pub open spec fn initial_context_spec(vocab: Seq<char>, prompt: Seq<char>) -> Seq<i64> {
    if encode_spec(vocab, prompt).len() == 0 {
        seq![0i64]
    } else {
        encode_spec(vocab, prompt)
    }
}

/// Generation starts from the whole prompt, encoded as given: when the prompt
/// encodes to something, the context is exactly that encoding, one id per
/// prompt character in the vocabulary (its line breaks and spaces included);
/// otherwise it is the single token 0.
pub proof fn lemma_initial_context_is_prompt(vocab: Seq<char>, prompt: Seq<char>)
    requires
        vocab.len() <= i64::MAX,
    ensures
        encode_spec(vocab, prompt).len() > 0 ==> initial_context_spec(vocab, prompt)
            == encode_spec(vocab, prompt),
        encode_spec(vocab, prompt).len() == 0 ==> initial_context_spec(vocab, prompt) == seq![
            0i64,
        ],
        initial_context_spec(vocab, prompt).len() == if known_chars(vocab, prompt).len() == 0 {
            1
        } else {
            known_chars(vocab, prompt).len()
        },
{
    lemma_encode_len_is_known_len(vocab, prompt);
}

/// Encodes the prompt to seed generation; an empty encoding is replaced by
/// the single token 0.
pub fn initial_context(tok: &CharTokenizer, prompt: &str) -> (ids: Vec<i64>)
    ensures
        ids@ == initial_context_spec(tok@, prompt@),
        ids@.len() > 0,
        encode_spec(tok@, prompt@).len() > 0 ==> ids@ == encode_spec(tok@, prompt@),
        encode_spec(tok@, prompt@).len() == 0 ==> ids@ == seq![0i64],
{
    let mut ids = tok.encode(prompt);
    if ids.len() == 0 {
        ids.push(0);
    }
    ids
}

/// Where the context window of `len` tokens starts: the last `block_size`
/// tokens are kept.
pub open spec fn window_start(len: int, block_size: int) -> int {
    if len > block_size {
        len - block_size
    } else {
        0
    }
}

/// The last `block_size` tokens of `ids` (all of them when there are fewer):
/// the part of the context the model can attend to.
pub fn context_window(ids: &[i64], block_size: usize) -> (w: Vec<i64>)
    ensures
        w@ == ids@.skip(window_start(ids@.len() as int, block_size as int)),
        w@.len() == if ids@.len() > block_size {
            block_size as int
        } else {
            ids@.len() as int
        },
{
    let n = ids.len();
    let start = n.saturating_sub(block_size);
    let mut w: Vec<i64> = Vec::new();
    for k in start..n
        invariant
            n == ids@.len(),
            start == window_start(n as int, block_size as int),
            w@ == ids@.subrange(start as int, k as int),
    {
        w.push(ids[k]);
        assert(w@ =~= ids@.subrange(start as int, k + 1));
    }
    assert(w@ =~= ids@.skip(start as int));
    w
}

/// `r` lists, from the largest key down, the positions of the `k` largest
/// keys (all positions when there are fewer than `k`); which of several equal
/// keys is taken is left open.
pub open spec fn is_top_k(keys: Seq<u32>, k: nat, r: Seq<usize>) -> bool {
    &&& r.len() == if k < keys.len() {
        k
    } else {
        keys.len()
    }
    &&& forall|i: int| 0 <= i < r.len() ==> #[trigger] r[i] < keys.len()
    &&& forall|i: int, j: int| 0 <= i < r.len() && 0 <= j < r.len() && i != j ==> r[i] != r[j]
    &&& forall|i: int, j: int|
        0 <= i < j < r.len() ==> keys[#[trigger] r[i] as int] >= keys[#[trigger] r[j] as int]
    &&& forall|p: int, i: int|
        0 <= p < keys.len() && !r.contains(p as usize) && 0 <= i < r.len() ==> #[trigger] keys[p]
            <= keys[#[trigger] r[i] as int]
}

/// Some entry of `order` is `x`.
pub open spec fn holds_position(order: Seq<usize>, x: int) -> bool {
    exists|q: int| 0 <= q < order.len() && order[q] == x
}

/// The positions of the `k` largest keys, largest first. Keys rank the
/// candidates (for probabilities that are not negative, their IEEE-754 bit
/// patterns order as the values do).
pub fn top_k_indices(keys: &[u32], k: usize) -> (r: Vec<usize>)
    ensures
        is_top_k(keys@, k as nat, r@),
{
    let n = keys.len();
    let m = if k < n {
        k
    } else {
        n
    };
    let mut order: Vec<usize> = Vec::new();
    for i in 0..n
        invariant
            n == keys@.len(),
            order@.len() == i,
            forall|q: int| 0 <= q < i ==> order@[q] == q,
    {
        order.push(i);
    }
    assert forall|x: int| 0 <= x < n implies #[trigger] holds_position(order@, x) by {
        assert(order@[x] == x);
    }
    let mut p: usize = 0;
    while p < m
        invariant
            n == keys@.len(),
            m <= n,
            p <= m,
            order@.len() == n,
            forall|q: int| 0 <= q < n ==> #[trigger] order@[q] < n,
            forall|q: int, l: int| 0 <= q < n && 0 <= l < n && q != l ==> order@[q] != order@[l],
            forall|x: int| 0 <= x < n ==> #[trigger] holds_position(order@, x),
            forall|q: int, l: int|
                0 <= q < l < p ==> keys@[#[trigger] order@[q] as int] >= keys@[#[trigger] order@[l] as int],
            forall|q: int, l: int|
                0 <= q < p && p <= l < n ==> keys@[#[trigger] order@[q] as int] >= keys@[#[trigger] order@[l] as int],
        decreases m - p,
    {
        let mut best = p;
        let mut l = p + 1;
        while l < n
            invariant
                n == keys@.len(),
                order@.len() == n,
                p < n,
                p <= best < l <= n,
                forall|q: int| 0 <= q < n ==> #[trigger] order@[q] < n,
                forall|q: int| p <= q < l ==> keys@[order@[q] as int] <= keys@[order@[best as int] as int],
            decreases n - l,
        {
            if keys[order[l]] > keys[order[best]] {
                best = l;
            }
            l = l + 1;
        }
        let ghost before = order@;
        let a = order[p];
        let b = order[best];
        order.set(p, b);
        order.set(best, a);
        proof {
            assert forall|x: int| 0 <= x < n implies #[trigger] holds_position(order@, x) by {
                assert(holds_position(before, x));
                let q0 = choose|q: int| 0 <= q < before.len() && before[q] == x;
                if q0 == p {
                    assert(order@[best as int] == x);
                } else if q0 == best {
                    assert(order@[p as int] == x);
                } else {
                    assert(order@[q0] == x);
                }
            }
            assert forall|q: int, l2: int|
                0 <= q < n && 0 <= l2 < n && q != l2 implies order@[q] != order@[l2] by {
                let qq = if q == p {
                    best as int
                } else if q == best {
                    p as int
                } else {
                    q
                };
                let ll = if l2 == p {
                    best as int
                } else if l2 == best {
                    p as int
                } else {
                    l2
                };
                assert(order@[q] == before[qq]);
                assert(order@[l2] == before[ll]);
            }
            assert forall|q: int, l2: int|
                0 <= q < l2 < p + 1 implies keys@[#[trigger] order@[q] as int] >= keys@[#[trigger] order@[l2] as int] by {
                if l2 == p {
                    assert(order@[q] == before[q]);
                    assert(order@[l2] == before[best as int]);
                } else {
                    assert(order@[q] == before[q]);
                    assert(order@[l2] == before[l2]);
                }
            }
            assert forall|q: int, l2: int|
                0 <= q < p + 1 && p + 1 <= l2 < n implies keys@[#[trigger] order@[q] as int] >= keys@[#[trigger] order@[l2] as int] by {
                let ll = if l2 == best {
                    p as int
                } else {
                    l2
                };
                assert(order@[l2] == before[ll]);
                if q == p {
                    assert(order@[q] == before[best as int]);
                } else {
                    assert(order@[q] == before[q]);
                }
            }
        }
        p = p + 1;
    }
    let mut r: Vec<usize> = Vec::new();
    for i in 0..m
        invariant
            m <= n,
            order@.len() == n,
            r@ == order@.take(i as int),
    {
        r.push(order[i]);
        assert(r@ =~= order@.take(i + 1));
    }
    proof {
        assert(r@ =~= order@.take(m as int));
        assert forall|x: int, i: int|
            0 <= x < n && !r@.contains(x as usize) && 0 <= i < r@.len() implies #[trigger] keys@[x]
                <= keys@[#[trigger] r@[i] as int] by {
            assert(holds_position(order@, x));
            let q = choose|q: int| 0 <= q < order@.len() && order@[q] == x;
            if q < m {
                assert(r@[q] == x as usize);
                assert(r@.contains(x as usize));
            } else {
                assert(r@[i] == order@[i]);
                assert(keys@[order@[i] as int] >= keys@[order@[q] as int]);
            }
        }
        assert forall|i: int, j: int| 0 <= i < j < r@.len() implies keys@[#[trigger] r@[i] as int]
            >= keys@[#[trigger] r@[j] as int] by {
            assert(r@[i] == order@[i] && r@[j] == order@[j]);
        }
    }
    r
}

} // verus!
