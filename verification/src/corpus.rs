//! Reading a corpus of JSON Lines records of the form `{"text": ...}` into one
//! training text.
use vstd::prelude::*;

use crate::text::{chars_of, string_from_chars, trim_chars, trimmed};

verus! {

#[verifier::external_type_specification]
#[verifier::external_body]
pub struct ExJsonError(serde_json::Error);

/// What `serde_json` makes of a line and a key: `None` when the line is not
/// a JSON document, otherwise the string stored under `key` when the document
/// is an object holding a string there, and `Some(None)` when it does not.
pub uninterp spec fn json_string_field(line: Seq<char>, key: Seq<char>) -> Option<Option<Seq<char>>>;

/// Parses `line` with `serde_json::from_str` into a `serde_json::Value`, then
/// reads the string under `key` (`Value::get`, `Value::as_str`). The contract
/// claims only that the outcome is `json_string_field` of the line and the
/// key: the parser's error is passed on as it is.
#[verifier::external_body]
fn string_field_of_json(line: &str, key: &str) -> (r: Result<Option<String>, serde_json::Error>)
    ensures
        match r {
            Err(_) => json_string_field(line@, key@) is None,
            Ok(None) => json_string_field(line@, key@) == Some(None::<Seq<char>>),
            Ok(Some(t)) => json_string_field(line@, key@) == Some(Some(t@)),
        },
{
    match serde_json::from_str::<serde_json::Value>(line) {
        Ok(v) => Ok(v.get(key).and_then(serde_json::Value::as_str).map(str::to_string)),
        Err(e) => Err(e),
    }
}

/// Why a corpus could not be read.
#[derive(Debug)]
pub enum CorpusError {
    /// A non-blank line is not a JSON document.
    Json(serde_json::Error),
}

/// `s` cut at each `'\n'`: the pieces between line breaks, in order (a text
/// with `n` line breaks has `n + 1` pieces).
pub open spec fn split_lines(s: Seq<char>) -> Seq<Seq<char>>
    decreases s.len(),
{
    if s.len() == 0 {
        seq![Seq::empty()]
    } else {
        let prev = split_lines(s.drop_last());
        if s.last() == '\n' {
            prev.push(Seq::empty())
        } else {
            prev.update(prev.len() - 1, prev.last().push(s.last()))
        }
    }
}

/// What each non-blank line of `lines` holds, in order: the string under
/// `"text"`, or `None` for a record without a string there. Lines that are
/// blank once trimmed are skipped; the whole is `None` when a non-blank line
/// is not a JSON document.
pub open spec fn record_outcomes(lines: Seq<Seq<char>>) -> Option<Seq<Option<Seq<char>>>>
    decreases lines.len(),
{
    if lines.len() == 0 {
        Some(Seq::empty())
    } else {
        match record_outcomes(lines.drop_last()) {
            None => None,
            Some(prev) => {
                let line = trimmed(lines.last());
                if line.len() == 0 {
                    Some(prev)
                } else {
                    match json_string_field(line, "text"@) {
                        None => None,
                        Some(field) => Some(prev.push(field)),
                    }
                }
            },
        }
    }
}

/// The texts of the records that have one, in order.
pub open spec fn kept_texts(outcomes: Seq<Option<Seq<char>>>) -> Seq<Seq<char>>
    decreases outcomes.len(),
{
    if outcomes.len() == 0 {
        Seq::empty()
    } else {
        let prev = kept_texts(outcomes.drop_last());
        match outcomes.last() {
            Some(t) => prev.push(t),
            None => prev,
        }
    }
}

/// The corpus text of `lines`: the texts of the records joined with line
/// breaks, or `None` when a non-blank line is not JSON.
pub open spec fn corpus_text(lines: Seq<Seq<char>>) -> Option<Seq<char>> {
    match record_outcomes(lines) {
        Some(outcomes) => Some(join_lines(kept_texts(outcomes))),
        None => None,
    }
}

/// The pieces joined into one text with a `'\n'` between neighbours.
pub open spec fn join_lines(pieces: Seq<Seq<char>>) -> Seq<char>
    decreases pieces.len(),
{
    if pieces.len() == 0 {
        Seq::empty()
    } else if pieces.len() == 1 {
        pieces[0]
    } else {
        join_lines(pieces.drop_last()) + seq!['\n'] + pieces.last()
    }
}

/// The views of a list of optional strings.
pub open spec fn option_views(v: Seq<Option<String>>) -> Seq<Option<Seq<char>>> {
    v.map_values(
        |o: Option<String>|
            match o {
                Some(t) => Some(t@),
                None => None,
            },
    )
}

proof fn lemma_split_lines_nonempty(s: Seq<char>)
    ensures
        split_lines(s).len() >= 1,
    decreases s.len(),
{
    if s.len() > 0 {
        lemma_split_lines_nonempty(s.drop_last());
    }
}

/// Adds what the line `chars[start..end]` holds to `outcomes`, or reports
/// that the line is not JSON.
fn take_record(
    chars: &Vec<char>,
    start: usize,
    end: usize,
    outcomes: &mut Vec<Option<String>>,
    Ghost(done): Ghost<Seq<Seq<char>>>,
) -> (r: Result<(), serde_json::Error>)
    requires
        start <= end <= chars.len(),
        record_outcomes(done) == Some(option_views(old(outcomes)@)),
    ensures
        r is Ok <==> record_outcomes(done.push(chars@.subrange(start as int, end as int))) is Some,
        r is Ok ==> record_outcomes(done.push(chars@.subrange(start as int, end as int))) == Some(
            option_views(final(outcomes)@),
        ),
{
    let ghost line = chars@.subrange(start as int, end as int);
    let ghost all = done.push(line);
    proof {
        assert(all.drop_last() =~= done);
        assert(all.last() == line);
    }
    let t = trim_chars(chars, start, end);
    if t.len() == 0 {
        return Ok(());
    }
    let line_text = string_from_chars(t.as_slice());
    proof {
        reveal_strlit("text");
    }
    match string_field_of_json(line_text.as_str(), "text") {
        Err(e) => Err(e),
        Ok(field) => {
            let ghost before = outcomes@;
            outcomes.push(field);
            proof {
                assert(option_views(outcomes@) =~= option_views(before).push(
                    match field {
                        Some(x) => Some(x@),
                        None => None,
                    },
                ));
            }
            Ok(())
        },
    }
}

/// Joins the texts of the records that have one, in order, with a `'\n'`
/// between neighbours; records without a text are skipped.
pub fn join_record_texts(records: &Vec<Option<String>>) -> (s: String)
    ensures
        s@ == join_lines(kept_texts(option_views(records@))),
{
    let ghost views = option_views(records@);
    let mut out: Vec<char> = Vec::new();
    let mut any = false;
    let count = records.len();
    for i in 0..count
        invariant
            count == records@.len(),
            views == option_views(records@),
            out@ == join_lines(kept_texts(views.take(i as int))),
            any == (kept_texts(views.take(i as int)).len() > 0),
    {
        let ghost kept = kept_texts(views.take(i as int));
        proof {
            assert(views.take(i + 1).drop_last() =~= views.take(i as int));
        }
        match &records[i] {
            None => {},
            Some(text) => {
                let piece = chars_of(text.as_str());
                proof {
                    assert(views.take(i + 1).last() == Some(piece@));
                    assert(kept_texts(views.take(i + 1)) == kept.push(piece@));
                    assert(kept.push(piece@).drop_last() =~= kept);
                }
                if any {
                    out.push('\n');
                }
                let ghost base = out@;
                let m = piece.len();
                for j in 0..m
                    invariant
                        m == piece@.len(),
                        out@ == base + piece@.take(j as int),
                {
                    out.push(piece[j]);
                    proof {
                        assert(piece@.take(j + 1) =~= piece@.take(j as int).push(piece@[j as int]));
                    }
                }
                proof {
                    assert(piece@.take(m as int) =~= piece@);
                    if !any {
                        assert(kept.len() == 0);
                        assert(base =~= Seq::<char>::empty());
                        assert(out@ =~= piece@);
                        assert(kept.push(piece@) =~= seq![piece@]);
                    }
                }
                any = true;
            },
        }
    }
    proof {
        assert(views.take(count as int) =~= views);
    }
    string_from_chars(out.as_slice())
}

/// Joins the texts of a corpus's JSON Lines records into one string, one
/// `'\n'` between neighbouring records. Blank lines are skipped, and so are
/// records without a string `"text"`; a non-blank line that is not JSON is an
/// error.
pub fn corpus_from_jsonl(raw: &str) -> (r: Result<String, CorpusError>)
    ensures
        r is Ok <==> corpus_text(split_lines(raw@)) is Some,
        r matches Ok(s) ==> corpus_text(split_lines(raw@)) == Some(s@),
{
    let chars = chars_of(raw);
    let n = chars.len();
    let mut outcomes: Vec<Option<String>> = Vec::new();
    let mut start: usize = 0;
    let ghost mut done: Seq<Seq<char>> = Seq::empty();
    proof {
        assert(chars@.take(0) =~= Seq::<char>::empty());
        assert(chars@.subrange(0, 0) =~= Seq::<char>::empty());
        assert(split_lines(chars@.take(0)) =~= done.push(chars@.subrange(0, 0)));
    }
    for k in 0..n
        invariant
            n == chars@.len(),
            chars@ == raw@,
            start <= k,
            split_lines(chars@.take(k as int)) == done.push(chars@.subrange(start as int, k as int)),
            record_outcomes(done) == Some(option_views(outcomes@)),
    {
        let ghost pre = chars@.take(k as int);
        let ghost post = chars@.take(k + 1);
        proof {
            assert(post.drop_last() =~= pre);
            assert(post.last() == chars@[k as int]);
        }
        if chars[k] == '\n' {
            match take_record(&chars, start, k, &mut outcomes, Ghost(done)) {
                Err(e) => {
                    proof {
                        let failed = done.push(chars@.subrange(start as int, k as int));
                        assert(split_lines(post) == failed.push(Seq::<char>::empty()));
                        assert(split_lines(post).drop_last() =~= failed);
                        lemma_split_lines_prefix(chars@, k + 1);
                        lemma_split_lines_len_mono(chars@, k + 1);
                        lemma_record_outcomes_none_extends(failed, split_lines(chars@));
                    }
                    return Err(CorpusError::Json(e));
                },
                Ok(()) => {},
            }
            proof {
                done = done.push(chars@.subrange(start as int, k as int));
                assert(chars@.subrange((k + 1) as int, (k + 1) as int) =~= Seq::<char>::empty());
            }
            start = k + 1;
        } else {
            proof {
                assert(chars@.subrange(start as int, k + 1) =~= chars@.subrange(
                    start as int,
                    k as int,
                ).push(chars@[k as int]));
            }
        }
    }
    proof {
        assert(chars@.take(n as int) =~= chars@);
    }
    match take_record(&chars, start, n, &mut outcomes, Ghost(done)) {
        Err(e) => {
            return Err(CorpusError::Json(e));
        },
        Ok(()) => {},
    }
    Ok(join_record_texts(&outcomes))
}

/// The total length of the pieces.
pub open spec fn total_len(pieces: Seq<Seq<char>>) -> int
    decreases pieces.len(),
{
    if pieces.len() == 0 {
        0
    } else {
        total_len(pieces.drop_last()) + pieces.last().len()
    }
}

/// Joining puts exactly one `'\n'` between neighbouring pieces, whatever they
/// end with: the joined text of `n > 0` pieces is as long as the pieces
/// together plus `n - 1`, it begins with the first piece, and adding a piece
/// adds a line break and that piece, untouched.
pub proof fn lemma_join_lines_shape(pieces: Seq<Seq<char>>, x: Seq<char>)
    requires
        pieces.len() > 0,
    ensures
        join_lines(pieces).len() == total_len(pieces) + pieces.len() - 1,
        pieces[0].len() <= join_lines(pieces).len(),
        join_lines(pieces).subrange(0, pieces[0].len() as int) == pieces[0],
        join_lines(pieces.push(x)) == join_lines(pieces) + seq!['\n'] + x,
    decreases pieces.len(),
{
    let p2 = pieces.push(x);
    assert(p2.drop_last() =~= pieces);
    if pieces.len() == 1 {
        assert(pieces.drop_last().len() == 0);
        assert(total_len(pieces.drop_last()) == 0);
        assert(join_lines(pieces).subrange(0, pieces[0].len() as int) =~= pieces[0]);
    } else {
        lemma_join_lines_shape(pieces.drop_last(), pieces.last());
        let j = join_lines(pieces.drop_last());
        assert(pieces.drop_last()[0] == pieces[0]);
        assert(join_lines(pieces) == j + seq!['\n'] + pieces.last());
        assert(join_lines(pieces).subrange(0, pieces[0].len() as int) =~= j.subrange(
            0,
            pieces[0].len() as int,
        ));
    }
}

/// Cutting `a` followed by a text without line breaks: the last piece of `a`
/// is extended by that text.
proof fn lemma_split_lines_append(a: Seq<char>, l: Seq<char>)
    requires
        !l.contains('\n'),
    ensures
        split_lines(a + l) == split_lines(a).update(
            split_lines(a).len() - 1,
            split_lines(a).last() + l,
        ),
    decreases l.len(),
{
    lemma_split_lines_nonempty(a);
    if l.len() == 0 {
        assert(a + l =~= a);
        assert(split_lines(a).last() + l =~= split_lines(a).last());
        assert(split_lines(a).update(split_lines(a).len() - 1, split_lines(a).last()) =~= split_lines(
            a,
        ));
    } else {
        let d = l.drop_last();
        assert(!d.contains('\n')) by {
            if d.contains('\n') {
                let k = choose|k: int| 0 <= k < d.len() && d[k] == '\n';
                assert(l[k] == '\n');
            }
        }
        lemma_split_lines_append(a, d);
        assert((a + l).drop_last() =~= a + d);
        assert((a + l).last() == l.last());
        assert(l.last() != '\n') by {
            assert(l[l.len() - 1] == l.last());
        }
        let sa = split_lines(a);
        let n = sa.len() - 1;
        let prev = sa.update(n, sa.last() + d);
        assert(prev.last() == sa.last() + d);
        assert(prev.last().push(l.last()) =~= sa.last() + l);
        assert(prev.update(n, prev.last().push(l.last())) =~= sa.update(n, sa.last() + l));
    }
}

/// A text whose only non-blank line is a record with a `"text"` string, with
/// or without a final line break, is exactly that string, untouched: only the
/// line is trimmed, never the value.
pub proof fn lemma_single_record_verbatim(l: Seq<char>, t: Seq<char>)
    requires
        !l.contains('\n'),
        trimmed(l).len() > 0,
        json_string_field(trimmed(l), "text"@) == Some(Some(t)),
    ensures
        corpus_text(split_lines(l)) == Some(t),
        corpus_text(split_lines(l + seq!['\n'])) == Some(t),
{
    let e = Seq::<char>::empty();
    lemma_split_lines_append(e, l);
    assert(e + l =~= l);
    assert(split_lines(e) =~= seq![e]);
    assert(split_lines(l) =~= seq![l]);
    let lines = seq![l];
    assert(lines.drop_last() =~= Seq::<Seq<char>>::empty());
    assert(record_outcomes(lines.drop_last()) == Some(Seq::<Option<Seq<char>>>::empty()));
    assert(lines.last() == l);
    assert(Seq::<Option<Seq<char>>>::empty().push(Some(t)) =~= seq![Some(t)]);
    assert(record_outcomes(lines) == Some(seq![Some(t)]));
    let o = seq![Some(t)];
    assert(o.drop_last() =~= Seq::<Option<Seq<char>>>::empty());
    assert(o.last() == Some(t));
    assert(kept_texts(o.drop_last()) == Seq::<Seq<char>>::empty());
    assert(Seq::<Seq<char>>::empty().push(t) =~= seq![t]);
    assert(kept_texts(o) =~= seq![t]);
    let ln = l + seq!['\n'];
    assert(ln.drop_last() =~= l);
    assert(split_lines(ln) == lines.push(e));
    let lines2 = lines.push(e);
    assert(lines2.drop_last() =~= lines);
    assert(trimmed(e) =~= e);
}

/// Appending a line that holds a record with a `"text"` string to a corpus
/// whose text is not empty adds one line break and that string, untouched.
pub proof fn lemma_append_record(a: Seq<char>, s: Seq<char>, l: Seq<char>, t: Seq<char>)
    requires
        a.len() > 0,
        a.last() == '\n',
        corpus_text(split_lines(a)) == Some(s),
        s.len() > 0,
        !l.contains('\n'),
        trimmed(l).len() > 0,
        json_string_field(trimmed(l), "text"@) == Some(Some(t)),
    ensures
        corpus_text(split_lines(a + l)) == Some(s + seq!['\n'] + t),
{
    let e = Seq::<char>::empty();
    let p = split_lines(a.drop_last());
    assert(a.drop_last().push(a.last()) =~= a);
    assert(split_lines(a) == p.push(e));
    lemma_split_lines_append(a, l);
    assert(p.push(e).last() + l =~= l);
    assert(split_lines(a + l) =~= p.push(l));
    let lines_a = p.push(e);
    assert(lines_a.drop_last() =~= p);
    assert(trimmed(e) =~= e);
    assert(record_outcomes(lines_a) == record_outcomes(p));
    let lines_b = p.push(l);
    assert(lines_b.drop_last() =~= p);
    let o = record_outcomes(p).unwrap();
    assert(record_outcomes(lines_b) == Some(o.push(Some(t))));
    assert(o.push(Some(t)).drop_last() =~= o);
    let k = kept_texts(o);
    assert(kept_texts(o.push(Some(t))) == k.push(t));
    assert(join_lines(k) == s);
    if k.len() == 0 {
        assert(join_lines(k).len() == 0);
    }
    lemma_join_lines_shape(k, t);
}

/// Cutting a longer text never gives fewer pieces.
proof fn lemma_split_lines_len_mono(s: Seq<char>, k: int)
    requires
        0 <= k <= s.len(),
    ensures
        split_lines(s.take(k)).len() <= split_lines(s).len(),
    decreases s.len(),
{
    lemma_split_lines_nonempty(s);
    if k < s.len() {
        assert(s.drop_last().take(k) =~= s.take(k));
        lemma_split_lines_len_mono(s.drop_last(), k);
        lemma_split_lines_nonempty(s.drop_last());
    } else {
        assert(s.take(k) =~= s);
    }
}

/// The pieces of a prefix of a text that end in a line break are pieces of
/// the whole text.
proof fn lemma_split_lines_prefix(s: Seq<char>, k: int)
    requires
        0 <= k <= s.len(),
    ensures
        split_lines(s.take(k)).drop_last() =~= split_lines(s).take(
            split_lines(s.take(k)).len() - 1,
        ),
    decreases s.len(),
{
    lemma_split_lines_nonempty(s.take(k));
    lemma_split_lines_nonempty(s);
    if k < s.len() {
        let d = s.drop_last();
        assert(d.take(k) =~= s.take(k));
        lemma_split_lines_prefix(d, k);
        lemma_split_lines_len_mono(d, k);
        lemma_split_lines_nonempty(d);
    } else {
        assert(s.take(k) =~= s);
    }
}

/// Once a prefix of the lines holds a non-blank line that is not JSON, the
/// lines as a whole have no record texts.
proof fn lemma_record_outcomes_none_extends(prefix: Seq<Seq<char>>, lines: Seq<Seq<char>>)
    requires
        record_outcomes(prefix) is None,
        prefix.len() <= lines.len(),
        prefix =~= lines.take(prefix.len() as int),
    ensures
        record_outcomes(lines) is None,
    decreases lines.len(),
{
    if lines.len() == prefix.len() {
        assert(lines =~= prefix);
    } else {
        assert(prefix =~= lines.drop_last().take(prefix.len() as int));
        lemma_record_outcomes_none_extends(prefix, lines.drop_last());
    }
}

} // verus!
