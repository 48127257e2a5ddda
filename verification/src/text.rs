//! Conversions between `str`/`String` and sequences of characters, and the
//! character-level text operations the corpus reader is built from.
use vstd::prelude::*;

verus! {

/// The characters of `s`, in order.
pub fn chars_of(s: &str) -> (v: Vec<char>)
    ensures
        v@ == s@,
{
    let mut v: Vec<char> = Vec::new();
    for c in it: s.chars()
        invariant
            v@ == it.seq().take(it.index() as int),
    {
        v.push(c);
    }
    v
}

/// Whether two strings hold the same characters.
pub fn same_text(a: &str, b: &str) -> (r: bool)
    ensures
        r == (a@ == b@),
{
    let x = chars_of(a);
    let y = chars_of(b);
    if x.len() != y.len() {
        return false;
    }
    let n = x.len();
    for k in 0..n
        invariant
            n == x@.len() == y@.len(),
            x@ == a@,
            y@ == b@,
            forall|i: int| 0 <= i < k ==> x@[i] == y@[i],
    {
        if x[k] != y[k] {
            assert(x@[k as int] != y@[k as int]);
            return false;
        }
    }
    assert(x@ =~= y@);
    true
}

/// Builds a `String` holding exactly the characters of `chars`
/// (`Iterator::collect` into a `String`).
#[verifier::external_body]
pub(crate) fn string_from_chars(chars: &[char]) -> (s: String)
    ensures
        s@ == chars@,
{
    chars.iter().collect()
}

/// The Unicode `White_Space` property (what `char::is_whitespace` tests):
/// U+0009 to U+000D, U+0020, U+0085, U+00A0, U+1680, U+2000 to U+200A,
/// U+2028, U+2029, U+202F, U+205F and U+3000.
pub open spec fn unicode_white_space(c: char) -> bool {
    ||| ('\u{9}' <= c && c <= '\u{d}')
    ||| c == ' '
    ||| c == '\u{85}'
    ||| c == '\u{a0}'
    ||| c == '\u{1680}'
    ||| ('\u{2000}' <= c && c <= '\u{200a}')
    ||| c == '\u{2028}'
    ||| c == '\u{2029}'
    ||| c == '\u{202f}'
    ||| c == '\u{205f}'
    ||| c == '\u{3000}'
}

/// Whether `c` has the Unicode `White_Space` property.
pub fn is_white_space(c: char) -> (b: bool)
    ensures
        b == unicode_white_space(c),
{
    ('\u{9}' <= c && c <= '\u{d}') || c == ' ' || c == '\u{85}' || c == '\u{a0}' || c
        == '\u{1680}' || ('\u{2000}' <= c && c <= '\u{200a}') || c == '\u{2028}' || c
        == '\u{2029}' || c == '\u{202f}' || c == '\u{205f}' || c == '\u{3000}'
}

/// Index of the first character of `s` that is not white space, or `s.len()`.
pub open spec fn trim_start_index(s: Seq<char>) -> int
    decreases s.len(),
{
    if s.len() == 0 {
        0
    } else if !unicode_white_space(s[0]) {
        0
    } else {
        1 + trim_start_index(s.drop_first())
    }
}

/// One past the last character of `s` that is not white space, or 0.
pub open spec fn trim_end_index(s: Seq<char>) -> int
    decreases s.len(),
{
    if s.len() == 0 {
        0
    } else if !unicode_white_space(s.last()) {
        s.len() as int
    } else {
        trim_end_index(s.drop_last())
    }
}

/// `s` without leading and trailing white space (what `str::trim` gives).
pub open spec fn trimmed(s: Seq<char>) -> Seq<char> {
    if trim_start_index(s) < trim_end_index(s) {
        s.subrange(trim_start_index(s), trim_end_index(s))
    } else {
        Seq::empty()
    }
}

proof fn lemma_trim_start(s: Seq<char>)
    ensures
        0 <= trim_start_index(s) <= s.len(),
        forall|i: int| 0 <= i < trim_start_index(s) ==> unicode_white_space(#[trigger] s[i]),
        trim_start_index(s) < s.len() ==> !unicode_white_space(s[trim_start_index(s)]),
    decreases s.len(),
{
    if s.len() > 0 && unicode_white_space(s[0]) {
        lemma_trim_start(s.drop_first());
        assert forall|i: int| 0 <= i < trim_start_index(s) implies unicode_white_space(
            #[trigger] s[i],
        ) by {
            if i > 0 {
                assert(s[i] == s.drop_first()[i - 1]);
            }
        }
    }
}

proof fn lemma_trim_end(s: Seq<char>)
    ensures
        0 <= trim_end_index(s) <= s.len(),
        forall|i: int| trim_end_index(s) <= i < s.len() ==> unicode_white_space(#[trigger] s[i]),
        trim_end_index(s) > 0 ==> !unicode_white_space(s[trim_end_index(s) - 1]),
    decreases s.len(),
{
    if s.len() > 0 && unicode_white_space(s.last()) {
        lemma_trim_end(s.drop_last());
        assert forall|i: int| trim_end_index(s) <= i < s.len() implies unicode_white_space(
            #[trigger] s[i],
        ) by {
            if i < s.len() - 1 {
                assert(s[i] == s.drop_last()[i]);
            }
        }
    }
}

/// The characters of `s[start..end]` with leading and trailing white space
/// removed.
pub fn trim_chars(s: &Vec<char>, start: usize, end: usize) -> (t: Vec<char>)
    requires
        start <= end <= s.len(),
    ensures
        t@ == trimmed(s@.subrange(start as int, end as int)),
{
    let ghost line = s@.subrange(start as int, end as int);
    proof {
        lemma_trim_start(line);
        lemma_trim_end(line);
    }
    let mut lo = start;
    while lo < end && is_white_space(s[lo])
        invariant
            start <= lo <= end <= s.len(),
            line == s@.subrange(start as int, end as int),
            forall|i: int| start <= i < lo ==> unicode_white_space(#[trigger] s@[i]),
        decreases end - lo,
    {
        lo = lo + 1;
    }
    let mut hi = end;
    while hi > lo && is_white_space(s[hi - 1])
        invariant
            start <= lo <= hi <= end <= s.len(),
            line == s@.subrange(start as int, end as int),
            forall|i: int| hi <= i < end ==> unicode_white_space(#[trigger] s@[i]),
        decreases hi - lo,
    {
        hi = hi - 1;
    }
    let mut t: Vec<char> = Vec::new();
    let mut k = lo;
    while k < hi
        invariant
            lo <= k <= hi <= s.len(),
            t@ == s@.subrange(lo as int, k as int),
        decreases hi - k,
    {
        t.push(s[k]);
        k = k + 1;
        assert(t@ == s@.subrange(lo as int, k as int));
    }
    proof {
        let a = trim_start_index(line);
        let b = trim_end_index(line);
        let l = lo - start;
        let h = hi - start;
        // every character before `l` is white space, and `l` is not (or l == h)
        assert(forall|i: int| 0 <= i < l ==> unicode_white_space(#[trigger] line[i])) by {
            assert forall|i: int| 0 <= i < l implies unicode_white_space(#[trigger] line[i]) by {
                assert(line[i] == s@[start + i]);
            }
        }
        assert(forall|i: int| h <= i < line.len() ==> unicode_white_space(#[trigger] line[i])) by {
            assert forall|i: int| h <= i < line.len() implies unicode_white_space(
                #[trigger] line[i],
            ) by {
                assert(line[i] == s@[start + i]);
            }
        }
        if l < h {
            assert(line[l] == s@[lo as int]);
            assert(line[h - 1] == s@[hi - 1]);
            assert(!unicode_white_space(line[l]));
            assert(!unicode_white_space(line[h - 1]));
            // a == l
            if a < l {
                assert(unicode_white_space(line[a]));
            }
            if l < a {
                assert(unicode_white_space(line[l]));
            }
            if b > h {
                assert(unicode_white_space(line[b - 1]));
            }
            if b < h {
                assert(unicode_white_space(line[h - 1]));
            }
            assert(t@ =~= line.subrange(a, b));
        } else {
            // the whole line is white space
            if a < b {
                if a < l {
                    assert(unicode_white_space(line[a]));
                } else {
                    assert(a >= h);
                    assert(unicode_white_space(line[a]));
                }
            }
            assert(t@ =~= Seq::<char>::empty());
        }
    }
    t
}

} // verus!
