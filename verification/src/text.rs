//! Character-level text helpers shared by the lexical and grammatical layers.
//!
//! Everything here works on `Seq<char>` views: a string is the sequence of its
//! Unicode scalar values, and every splitter is specified by [`fields`].
use vstd::prelude::*;

verus! {

// ---------------------------------------------------------------------------
// Properties of characters that std defines by Unicode tables.
// ---------------------------------------------------------------------------

/// `char::is_alphanumeric`: Unicode `Alphabetic` or `Numeric`.
pub uninterp spec fn unicode_alphanumeric(c: char) -> bool;

/// `char::is_whitespace`: Unicode `White_Space`.
pub uninterp spec fn unicode_whitespace(c: char) -> bool;

/// `str::to_lowercase`: full Unicode lowercase mapping of a string.
pub uninterp spec fn unicode_lowercase(s: Seq<char>) -> Seq<char>;

/// Calls `char::is_alphanumeric`. For ASCII the std documentation fixes the answer:
/// exactly the digits and the Latin letters.
#[verifier::external_body]
pub(crate) fn is_alphanumeric(c: char) -> (r: bool)
    ensures
        r == unicode_alphanumeric(c),
        (c as u32) < 128 ==> (r <==> ascii_alphanumeric(c)),
{
    c.is_alphanumeric()
}

/// Calls `char::is_whitespace`. For ASCII the std documentation lists the
/// whitespace characters: space, `\t`, `\n`, `\x0B`, `\x0C`, `\r`.
#[verifier::external_body]
pub(crate) fn is_whitespace(c: char) -> (r: bool)
    ensures
        r == unicode_whitespace(c),
        (c as u32) < 128 ==> (r <==> ascii_whitespace(c)),
{
    c.is_whitespace()
}

/// Calls `str::to_lowercase`. The result is named, not described: the Unicode
/// mapping takes tables to state.
#[verifier::external_body]
pub(crate) fn to_lowercase(s: &str) -> (r: String)
    ensures
        r@ == unicode_lowercase(s@),
{
    s.to_lowercase()
}

/// `str::to_uppercase`: full Unicode uppercase mapping of a string.
pub uninterp spec fn unicode_uppercase(s: Seq<char>) -> Seq<char>;

/// Calls `str::to_uppercase`. The result is named, not described: the Unicode
/// mapping takes tables to state.
#[verifier::external_body]
pub(crate) fn to_uppercase(s: &str) -> (r: String)
    ensures
        r@ == unicode_uppercase(s@),
{
    s.to_uppercase()
}

/// Calls `String::push`.
#[verifier::external_body]
pub(crate) fn push_char(s: &mut String, c: char)
    ensures
        final(s)@ == old(s)@.push(c),
{
    s.push(c)
}

/// Append `t` to `s`.
pub(crate) fn push_str(s: &mut String, t: &str)
    ensures
        final(s)@ == old(s)@ + t@,
{
    s.append(t);
}

pub open spec fn ascii_alphanumeric(c: char) -> bool {
    ('0' <= c <= '9') || ('a' <= c <= 'z') || ('A' <= c <= 'Z')
}

pub open spec fn ascii_whitespace(c: char) -> bool {
    c == ' ' || c == '\t' || c == '\n' || c == '\x0B' || c == '\x0C' || c == '\r'
}

// ---------------------------------------------------------------------------
// Splitting.
// ---------------------------------------------------------------------------

/// The fields of `s` between separator characters, as `str::split` yields them:
/// `n` separators give `n + 1` fields, empty ones included.
pub open spec fn fields(s: Seq<char>, sep: spec_fn(char) -> bool) -> Seq<Seq<char>>
    decreases s.len(),
{
    if s.len() == 0 {
        seq![Seq::<char>::empty()]
    } else {
        let before = fields(s.drop_last(), sep);
        if sep(s.last()) {
            before.push(Seq::<char>::empty())
        } else {
            before.update(before.len() - 1, before.last().push(s.last()))
        }
    }
}

pub proof fn lemma_fields_nonempty(s: Seq<char>, sep: spec_fn(char) -> bool)
    ensures
        fields(s, sep).len() >= 1,
    decreases s.len(),
{
    if s.len() > 0 {
        lemma_fields_nonempty(s.drop_last(), sep);
    }
}

/// One step of [`fields`]: appending a character to the text.
pub proof fn lemma_fields_push(s: Seq<char>, c: char, sep: spec_fn(char) -> bool)
    ensures
        fields(s.push(c), sep).len() >= 1,
        fields(s, sep).len() >= 1,
        sep(c) ==> fields(s.push(c), sep) == fields(s, sep).push(Seq::<char>::empty()),
        !sep(c) ==> fields(s.push(c), sep) == fields(s, sep).update(
            fields(s, sep).len() - 1,
            fields(s, sep).last().push(c),
        ),
{
    lemma_fields_nonempty(s, sep);
    assert(s.push(c).drop_last() =~= s);
}

pub open spec fn char_is(sep: char) -> spec_fn(char) -> bool {
    |c: char| c == sep
}

/// A character that belongs to a word: alphanumeric or an apostrophe (`don't`).
pub open spec fn word_char(c: char) -> bool {
    unicode_alphanumeric(c) || c == '\''
}

pub open spec fn not_word_char() -> spec_fn(char) -> bool {
    |c: char| !word_char(c)
}

pub open spec fn is_nonempty() -> spec_fn(Seq<char>) -> bool {
    |f: Seq<char>| f.len() > 0
}

/// The words of `s`: maximal runs of word characters, in order.
pub open spec fn words(s: Seq<char>) -> Seq<Seq<char>> {
    fields(s, not_word_char()).filter(is_nonempty())
}

pub open spec fn views(v: Seq<String>) -> Seq<Seq<char>> {
    v.map_values(|x: String| x@)
}

pub proof fn lemma_filter_push<A>(s: Seq<A>, x: A, p: spec_fn(A) -> bool)
    ensures
        s.push(x).filter(p) == (if p(x) { s.filter(p).push(x) } else { s.filter(p) }),
{
    reveal(Seq::filter);
    assert(s.push(x).drop_last() =~= s);
}

/// `s.split(sep)` with one separator character, every field kept.
pub fn split_char(s: &str, sep: char) -> (out: Vec<String>)
    ensures
        views(out@) == fields(s@, char_is(sep)),
{
    let mut out: Vec<String> = Vec::new();
    let mut cur = String::new();
    let ghost seen: Seq<char> = Seq::empty();
    for c in it: s.chars()
        invariant
            seen == it.seq().take(it.index() as int),
            fields(seen, char_is(sep)).len() >= 1,
            views(out@) == fields(seen, char_is(sep)).drop_last(),
            cur@ == fields(seen, char_is(sep)).last(),
    {
        proof {
            lemma_fields_push(seen, c, char_is(sep));
            assert(it.seq().take(it.index() + 1) =~= seen.push(c));
        }
        if c == sep {
            let ghost before = fields(seen, char_is(sep));
            proof {
                assert(fields(seen.push(c), char_is(sep)).drop_last() =~= before);
                assert(before =~= before.drop_last().push(before.last()));
            }
            let done = cur;
            out.push(done);
            cur = String::new();
            proof {
                assert(views(out@) =~= fields(seen.push(c), char_is(sep)).drop_last());
            }
        } else {
            push_char(&mut cur, c);
            proof {
                assert(views(out@) =~= fields(seen.push(c), char_is(sep)).drop_last());
            }
        }
        proof {
            seen = seen.push(c);
        }
    }
    proof {
        assert(seen =~= s@);
        lemma_fields_nonempty(seen, char_is(sep));
        let all = fields(seen, char_is(sep));
        assert(all =~= all.drop_last().push(all.last()));
    }
    out.push(cur);
    proof {
        assert(views(out@) =~= fields(seen, char_is(sep)));
    }
    out
}

/// The words of `s` (see [`words`]), each as it stands in the text.
pub fn split_words(s: &str) -> (out: Vec<String>)
    ensures
        views(out@) == words(s@),
{
    let mut out: Vec<String> = Vec::new();
    let mut cur = String::new();
    let ghost seen: Seq<char> = Seq::empty();
    for c in it: s.chars()
        invariant
            seen == it.seq().take(it.index() as int),
            fields(seen, not_word_char()).len() >= 1,
            views(out@) == fields(seen, not_word_char()).drop_last().filter(is_nonempty()),
            cur@ == fields(seen, not_word_char()).last(),
    {
        proof {
            lemma_fields_push(seen, c, not_word_char());
            assert(it.seq().take(it.index() + 1) =~= seen.push(c));
        }
        let alnum = is_alphanumeric(c);
        if !(alnum || c == '\'') {
            let ghost before = fields(seen, not_word_char());
            proof {
                assert(fields(seen.push(c), not_word_char()).drop_last() =~= before);
                assert(before =~= before.drop_last().push(before.last()));
                lemma_filter_push(before.drop_last(), before.last(), is_nonempty());
            }
            if cur.as_str().is_empty() {
                cur = String::new();
            } else {
                let done = cur;
                out.push(done);
                cur = String::new();
            }
            proof {
                assert(views(out@) =~= fields(seen.push(c), not_word_char()).drop_last().filter(
                    is_nonempty(),
                ));
            }
        } else {
            push_char(&mut cur, c);
            proof {
                assert(fields(seen.push(c), not_word_char()).drop_last() =~= fields(
                    seen,
                    not_word_char(),
                ).drop_last());
            }
        }
        proof {
            seen = seen.push(c);
        }
    }
    proof {
        assert(seen =~= s@);
        lemma_fields_nonempty(seen, not_word_char());
        let all = fields(seen, not_word_char());
        assert(all =~= all.drop_last().push(all.last()));
        lemma_filter_push(all.drop_last(), all.last(), is_nonempty());
    }
    if !cur.as_str().is_empty() {
        out.push(cur);
    }
    proof {
        assert(views(out@) =~= words(s@));
    }
    out
}

/// The characters of `s`, in order.
pub fn chars_of(s: &str) -> (out: Vec<char>)
    ensures
        out@ == s@,
{
    let mut out: Vec<char> = Vec::new();
    for c in it: s.chars()
        invariant
            out@ == it.seq().take(it.index() as int),
    {
        out.push(c);
    }
    out
}

// ---------------------------------------------------------------------------
// Trimming and field positions.
// ---------------------------------------------------------------------------

pub open spec fn trim_front(s: Seq<char>) -> Seq<char>
    decreases s.len(),
{
    if s.len() > 0 && unicode_whitespace(s[0]) {
        trim_front(s.drop_first())
    } else {
        s
    }
}

pub open spec fn trim_back(s: Seq<char>) -> Seq<char>
    decreases s.len(),
{
    if s.len() > 0 && unicode_whitespace(s.last()) {
        trim_back(s.drop_last())
    } else {
        s
    }
}

/// `str::trim`: leading and trailing whitespace removed.
pub open spec fn trim(s: Seq<char>) -> Seq<char> {
    trim_back(trim_front(s))
}

pub open spec fn strs(v: Seq<&str>) -> Seq<Seq<char>> {
    v.map_values(|x: &str| x@)
}

/// The bounds of `trim(cs[a..b])` inside `cs`.
pub fn trim_range(cs: &Vec<char>, a: usize, b: usize) -> (r: (usize, usize))
    requires
        a <= b <= cs.len(),
    ensures
        a <= r.0 <= r.1 <= b,
        cs@.subrange(r.0 as int, r.1 as int) == trim(cs@.subrange(a as int, b as int)),
{
    let mut lo = a;
    while lo < b && is_whitespace(cs[lo])
        invariant
            a <= lo <= b <= cs.len(),
            trim_front(cs@.subrange(a as int, b as int)) == trim_front(cs@.subrange(lo as int, b as int)),
        decreases b - lo,
    {
        assert(cs@.subrange(lo as int, b as int).drop_first() =~= cs@.subrange(lo + 1, b as int));
        lo = lo + 1;
    }
    let ghost front = trim_front(cs@.subrange(a as int, b as int));
    assert(front == cs@.subrange(lo as int, b as int));
    let mut hi = b;
    while hi > lo && is_whitespace(cs[hi - 1])
        invariant
            a <= lo <= hi <= b <= cs.len(),
            trim_back(front) == trim_back(cs@.subrange(lo as int, hi as int)),
        decreases hi - lo,
    {
        assert(cs@.subrange(lo as int, hi as int).drop_last() =~= cs@.subrange(lo as int, hi - 1));
        hi = hi - 1;
    }
    (lo, hi)
}

/// Where each field of `cs` split at `sep` starts and ends.
pub fn field_bounds(cs: &Vec<char>, sep: char) -> (out: Vec<(usize, usize)>)
    ensures
        out.len() == fields(cs@, char_is(sep)).len(),
        forall|k: int|
            0 <= k < out.len() ==> (out@[k].0 <= out@[k].1 <= cs.len()) && cs@.subrange(
                out@[k].0 as int,
                out@[k].1 as int,
            ) == #[trigger] fields(cs@, char_is(sep))[k],
{
    let mut out: Vec<(usize, usize)> = Vec::new();
    let mut start: usize = 0;
    let mut i: usize = 0;
    while i < cs.len()
        invariant
            i <= cs.len(),
            start <= i,
            fields(cs@.take(i as int), char_is(sep)).len() >= 1,
            out.len() == fields(cs@.take(i as int), char_is(sep)).len() - 1,
            forall|k: int| 0 <= k < out.len() ==> (#[trigger] out@[k]).0 <= out@[k].1 <= i,
            forall|k: int|
                0 <= k < out.len() ==> cs@.subrange(out@[k].0 as int, out@[k].1 as int)
                    == #[trigger] fields(cs@.take(i as int), char_is(sep))[k],
            cs@.subrange(start as int, i as int) == fields(cs@.take(i as int), char_is(sep)).last(),
        decreases cs.len() - i,
    {
        let c = cs[i];
        let ghost prev = fields(cs@.take(i as int), char_is(sep));
        proof {
            lemma_fields_push(cs@.take(i as int), c, char_is(sep));
            assert(cs@.take(i + 1) =~= cs@.take(i as int).push(c));
        }
        let ghost next = fields(cs@.take(i + 1), char_is(sep));
        let ghost old_out = out@;
        let ghost old_start = start;
        if c == sep {
            out.push((start, i));
            start = i + 1;
        }
        proof {
            if c == sep {
                assert(cs@.subrange(start as int, i + 1) =~= Seq::<char>::empty());
            } else {
                assert(cs@.subrange(start as int, i + 1) =~= cs@.subrange(start as int, i as int).push(c));
            }
            assert forall|k: int| 0 <= k < out.len() implies cs@.subrange(out@[k].0 as int, out@[k].1 as int) == #[trigger] next[k] by {
                if k < old_out.len() {
                    assert(out@[k] == old_out[k]);
                    assert(next[k] == prev[k]);
                    assert(prev[k] == fields(cs@.take(i as int), char_is(sep))[k]);
                } else {
                    assert(out@[k] == (old_start, i));
                    assert(next[k] == prev.last());
                }
            }
        }
        i = i + 1;
        proof {
            assert(fields(cs@.take(i as int), char_is(sep)) == next);
        }
    }
    proof {
        assert(cs@.take(i as int) =~= cs@);
    }
    let ghost fin = fields(cs@, char_is(sep));
    let ghost old_out = out@;
    out.push((start, i));
    proof {
        assert forall|k: int| 0 <= k < out.len() implies (out@[k].0 <= out@[k].1 <= cs.len())
            && cs@.subrange(out@[k].0 as int, out@[k].1 as int) == #[trigger] fin[k] by {
            if k < old_out.len() {
                assert(out@[k] == old_out[k]);
                assert(old_out[k].1 <= i);
                assert(fin[k] == fields(cs@.take(i as int), char_is(sep))[k]);
            }
        }
    }
    out
}

// ---------------------------------------------------------------------------
// Joining, and how splitting undoes it.
// ---------------------------------------------------------------------------

/// `fs.join(sep)`.
pub open spec fn join(fs: Seq<Seq<char>>, sep: char) -> Seq<char>
    decreases fs.len(),
{
    if fs.len() == 0 {
        Seq::<char>::empty()
    } else if fs.len() == 1 {
        fs[0]
    } else {
        join(fs.drop_last(), sep).push(sep) + fs.last()
    }
}

/// A text without separators is a single field.
pub proof fn lemma_fields_of_plain(s: Seq<char>, sep: spec_fn(char) -> bool)
    requires
        forall|i: int| 0 <= i < s.len() ==> !sep(#[trigger] s[i]),
    ensures
        fields(s, sep) == seq![s],
    decreases s.len(),
{
    if s.len() > 0 {
        assert forall|i: int| 0 <= i < s.drop_last().len() implies !sep(#[trigger] s.drop_last()[i]) by {
            assert(s.drop_last()[i] == s[i]);
        }
        lemma_fields_of_plain(s.drop_last(), sep);
        assert(!sep(s[s.len() - 1]));
        assert(s.drop_last().push(s.last()) =~= s);
        assert(fields(s.drop_last(), sep).update(0, s.drop_last().push(s.last())) =~= seq![s]);
    } else {
        assert(s =~= Seq::<char>::empty());
    }
}

/// Splitting at a separator: the fields of `a + [sep] + b` are those of `a`
/// followed by those of `b`.
pub proof fn lemma_fields_concat(a: Seq<char>, c: char, b: Seq<char>, sep: spec_fn(char) -> bool)
    requires
        sep(c),
    ensures
        fields(a.push(c) + b, sep) == fields(a, sep) + fields(b, sep),
    decreases b.len(),
{
    lemma_fields_nonempty(a, sep);
    if b.len() == 0 {
        assert(a.push(c) + b =~= a.push(c));
        lemma_fields_push(a, c, sep);
        assert(fields(a, sep).push(Seq::<char>::empty()) =~= fields(a, sep) + fields(b, sep));
    } else {
        let b0 = b.drop_last();
        let x = b.last();
        lemma_fields_concat(a, c, b0, sep);
        assert(a.push(c) + b =~= (a.push(c) + b0).push(x));
        lemma_fields_push(a.push(c) + b0, x, sep);
        lemma_fields_push(b0, x, sep);
        assert(b0.push(x) =~= b);
        let fa = fields(a, sep);
        let fb0 = fields(b0, sep);
        if sep(x) {
            assert((fa + fb0).push(Seq::<char>::empty()) =~= fa + fb0.push(Seq::<char>::empty()));
        } else {
            assert((fa + fb0).update((fa + fb0).len() - 1, (fa + fb0).last().push(x)) =~= fa
                + fb0.update(fb0.len() - 1, fb0.last().push(x)));
        }
    }
}

pub open spec fn no_char(s: Seq<char>, c: char) -> bool {
    forall|i: int| 0 <= i < s.len() ==> s[i] != c
}

/// Joining fields that hold no separator and splitting again gives them back.
pub proof fn lemma_fields_of_join(fs: Seq<Seq<char>>, sep: char)
    requires
        fs.len() >= 1,
        forall|k: int| 0 <= k < fs.len() ==> no_char(#[trigger] fs[k], sep),
    ensures
        fields(join(fs, sep), char_is(sep)) == fs,
    decreases fs.len(),
{
    let last = fs.last();
    assert(no_char(fs[fs.len() - 1], sep));
    assert forall|i: int| 0 <= i < last.len() implies !(char_is(sep))(#[trigger] last[i]) by {}
    lemma_fields_of_plain(last, char_is(sep));
    if fs.len() == 1 {
        assert(fs =~= seq![last]);
    } else {
        let init = fs.drop_last();
        assert forall|k: int| 0 <= k < init.len() implies no_char(#[trigger] init[k], sep) by {
            assert(init[k] == fs[k]);
        }
        lemma_fields_of_join(init, sep);
        lemma_fields_concat(join(init, sep), sep, last, char_is(sep));
        assert(init + seq![last] =~= fs);
    }
}

/// The first `n` fields of a join, joined again, are a prefix of it; what
/// follows is the separator.
pub proof fn lemma_join_prefix(fs: Seq<Seq<char>>, sep: char, n: int)
    requires
        1 <= n <= fs.len(),
    ensures
        join(fs, sep).len() >= join(fs.take(n), sep).len(),
        join(fs, sep).take(join(fs.take(n), sep).len() as int) == join(fs.take(n), sep),
        n < fs.len() ==> join(fs, sep).len() > join(fs.take(n), sep).len()
            && join(fs, sep)[join(fs.take(n), sep).len() as int] == sep,
    decreases fs.len(),
{
    if n == fs.len() {
        assert(fs.take(n) =~= fs);
    } else {
        let init = fs.drop_last();
        assert(init.take(n) =~= fs.take(n));
        let p = join(fs.take(n), sep);
        let j = join(init, sep);
        assert(join(fs, sep) == j.push(sep) + fs.last());
        if n < init.len() {
            lemma_join_prefix(init, sep, n);
        } else {
            assert(init.take(n) =~= init);
        }
        assert(join(fs, sep).take(p.len() as int) =~= j.take(p.len() as int));
    }
}

// ---------------------------------------------------------------------------
// ASCII case folding.
// ---------------------------------------------------------------------------

pub open spec fn ascii_lower(c: char) -> char {
    if 'A' <= c <= 'Z' {
        ((c as u32) + 32) as char
    } else {
        c
    }
}

/// `str::eq_ignore_ascii_case`: equal once ASCII letters are lowercased.
pub open spec fn eq_ignore_ascii_case(a: Seq<char>, b: Seq<char>) -> bool {
    a.len() == b.len() && forall|i: int| 0 <= i < a.len() ==> ascii_lower(#[trigger] a[i]) == ascii_lower(b[i])
}

pub fn lower_ascii_char(c: char) -> (r: char)
    ensures
        r == ascii_lower(c),
{
    if 'A' <= c && c <= 'Z' {
        ((c as u8) + 32) as char
    } else {
        c
    }
}

/// Whether two strings are an ASCII case-insensitive match.
pub fn str_eq_ignore_ascii_case(a: &str, b: &str) -> (r: bool)
    ensures
        r == eq_ignore_ascii_case(a@, b@),
{
    let x = chars_of(a);
    let y = chars_of(b);
    if x.len() != y.len() {
        return false;
    }
    let mut i: usize = 0;
    while i < x.len()
        invariant
            x@ == a@,
            y@ == b@,
            x.len() == y.len(),
            i <= x.len(),
            forall|j: int| 0 <= j < i ==> ascii_lower(#[trigger] x@[j]) == ascii_lower(y@[j]),
        decreases x.len() - i,
    {
        if lower_ascii_char(x[i]) != lower_ascii_char(y[i]) {
            return false;
        }
        i = i + 1;
    }
    true
}

// ---------------------------------------------------------------------------
// Equality and lexicographic order of character sequences.
// ---------------------------------------------------------------------------

/// Lexicographic order by code point, which is the order `str`/`String`
/// comparison gives (UTF-8 preserves code point order byte by byte).
pub open spec fn seq_lt(a: Seq<char>, b: Seq<char>) -> bool
    decreases a.len(),
{
    if a.len() == 0 {
        b.len() > 0
    } else if b.len() == 0 {
        false
    } else if a[0] < b[0] {
        true
    } else if a[0] == b[0] {
        seq_lt(a.drop_first(), b.drop_first())
    } else {
        false
    }
}

pub proof fn lemma_seq_lt_irreflexive(a: Seq<char>)
    ensures
        !seq_lt(a, a),
    decreases a.len(),
{
    if a.len() > 0 {
        lemma_seq_lt_irreflexive(a.drop_first());
    }
}

pub proof fn lemma_seq_lt_asymmetric(a: Seq<char>, b: Seq<char>)
    ensures
        seq_lt(a, b) ==> !seq_lt(b, a),
    decreases a.len(),
{
    if a.len() > 0 && b.len() > 0 && a[0] == b[0] {
        lemma_seq_lt_asymmetric(a.drop_first(), b.drop_first());
    }
}

pub proof fn lemma_seq_lt_transitive(a: Seq<char>, b: Seq<char>, c: Seq<char>)
    ensures
        seq_lt(a, b) && seq_lt(b, c) ==> seq_lt(a, c),
    decreases a.len(),
{
    if a.len() > 0 && b.len() > 0 && c.len() > 0 {
        lemma_seq_lt_transitive(a.drop_first(), b.drop_first(), c.drop_first());
    }
}

pub proof fn lemma_seq_lt_total(a: Seq<char>, b: Seq<char>)
    ensures
        a != b ==> seq_lt(a, b) || seq_lt(b, a),
    decreases a.len(),
{
    if a.len() > 0 && b.len() > 0 {
        lemma_seq_lt_total(a.drop_first(), b.drop_first());
        if a[0] == b[0] && a.drop_first() == b.drop_first() {
            assert(a =~= seq![a[0]] + a.drop_first());
            assert(b =~= seq![b[0]] + b.drop_first());
        }
        if a[0] != b[0] {
            assert(a[0] < b[0] || b[0] < a[0]);
        }
    } else if a.len() == 0 && b.len() == 0 {
        assert(a =~= b);
    }
}

/// Three-way comparison: `-1`, `0`, `1` as `a` is before, equal to, after `b`.
pub fn compare_str(a: &str, b: &str) -> (r: i8)
    ensures
        r == 0 <==> a@ == b@,
        r < 0 <==> seq_lt(a@, b@),
        r > 0 <==> seq_lt(b@, a@),
        -1 <= r <= 1,
{
    let x = chars_of(a);
    let y = chars_of(b);
    let mut i: usize = 0;
    while i < x.len() && i < y.len()
        invariant
            x@ == a@,
            y@ == b@,
            i <= x.len(),
            i <= y.len(),
            x@.take(i as int) == y@.take(i as int),
        decreases x.len() - i,
    {
        let cx = x[i];
        let cy = y[i];
        if cx != cy {
            proof { lemma_lt_after_common_prefix(x@, y@, i as int); }
            if cx < cy {
                return -1;
            } else {
                return 1;
            }
        }
        proof {
            assert(x@.take(i + 1) =~= x@.take(i as int).push(cx));
            assert(y@.take(i + 1) =~= y@.take(i as int).push(cy));
        }
        i = i + 1;
    }
    proof { lemma_lt_after_common_prefix(x@, y@, i as int); }
    if x.len() == y.len() {
        proof {
            assert(x@ =~= x@.take(i as int));
            assert(y@ =~= y@.take(i as int));
            lemma_seq_lt_irreflexive(x@);
        }
        0
    } else if x.len() < y.len() {
        proof { assert(x@ != y@); }
        -1
    } else {
        proof { assert(x@ != y@); }
        1
    }
}

/// Comparing two sequences that agree on their first `k` characters comes down
/// to what follows.
pub proof fn lemma_lt_after_common_prefix(a: Seq<char>, b: Seq<char>, k: int)
    requires
        0 <= k <= a.len(),
        k <= b.len(),
        a.take(k) == b.take(k),
    ensures
        seq_lt(a, b) == seq_lt(a.skip(k), b.skip(k)),
        seq_lt(b, a) == seq_lt(b.skip(k), a.skip(k)),
    decreases k,
{
    if k > 0 {
        assert(a[0] == a.take(k)[0]);
        assert(b[0] == b.take(k)[0]);
        assert(a.drop_first().take(k - 1) =~= a.take(k).drop_first());
        assert(b.drop_first().take(k - 1) =~= b.take(k).drop_first());
        lemma_lt_after_common_prefix(a.drop_first(), b.drop_first(), k - 1);
        assert(a.drop_first().skip(k - 1) =~= a.skip(k));
        assert(b.drop_first().skip(k - 1) =~= b.skip(k));
    } else {
        assert(a.skip(0) =~= a);
        assert(b.skip(0) =~= b);
    }
}

/// `a == b` on string slices.
pub fn str_eq(a: &str, b: &str) -> (r: bool)
    ensures
        r == (a@ == b@),
{
    compare_str(a, b) == 0
}

/// `keys` is strictly increasing.
pub open spec fn strictly_sorted(keys: Seq<Seq<char>>) -> bool {
    forall|a: int, b: int| 0 <= a < b < keys.len() ==> seq_lt(#[trigger] keys[a], #[trigger] keys[b])
}

/// Insert `s` into a strictly sorted list of strings, unless it is there already:
/// the list stays strictly sorted and gains exactly `s`.
pub fn insert_sorted_distinct(v: &mut Vec<String>, s: String)
    requires
        strictly_sorted(views(old(v)@)),
    ensures
        strictly_sorted(views(final(v)@)),
        views(final(v)@).to_set() == views(old(v)@).to_set().insert(s@),
{
    let ghost old_v = views(v@);
    let mut p: usize = 0;
    let mut found = false;
    while p < v.len()
        invariant_except_break
            !found,
        invariant
            p <= v.len(),
            views(v@) == old_v,
            forall|a: int| 0 <= a < p ==> seq_lt(#[trigger] old_v[a], s@),
        ensures
            p <= v.len(),
            views(v@) == old_v,
            forall|a: int| 0 <= a < p ==> seq_lt(#[trigger] old_v[a], s@),
            found ==> p < v.len() && old_v[p as int] == s@,
            !found ==> p == v.len() || seq_lt(s@, old_v[p as int]),
        decreases v.len() - p,
    {
        proof {
            assert(old_v[p as int] == v@[p as int]@);
        }
        let c = compare_str(v[p].as_str(), s.as_str());
        if c == 0 {
            found = true;
            break;
        }
        if c > 0 {
            break;
        }
        p = p + 1;
    }
    proof {
        assert(old_v.len() == v@.len());
    }
    if found {
        proof {
            assert(old_v.to_set().insert(s@) =~= old_v.to_set()) by {
                assert(old_v.contains(s@));
            }
        }
        return;
    }
    let ghost sv = s@;
    proof {
        if p < v.len() {
            lemma_seq_lt_total(old_v[p as int], sv);
            lemma_seq_lt_asymmetric(old_v[p as int], sv);
        }
    }
    v.insert(p, s);
    let ghost nv = views(v@);
    proof {
        assert(nv =~= old_v.insert(p as int, sv));
        assert forall|a: int, b: int| 0 <= a < b < nv.len() implies seq_lt(#[trigger] nv[a], #[trigger] nv[b]) by {
            if b < p {
            } else if b == p {
            } else if a > p {
                assert(nv[a] == old_v[a - 1]);
                assert(nv[b] == old_v[b - 1]);
            } else if a == p {
                assert(nv[b] == old_v[b - 1]);
                if b - 1 > p {
                    lemma_seq_lt_transitive(sv, old_v[p as int], old_v[b - 1]);
                }
            } else {
                assert(nv[b] == old_v[b - 1]);
                if b - 1 > p {
                    lemma_seq_lt_transitive(old_v[a], sv, old_v[p as int]);
                    lemma_seq_lt_transitive(old_v[a], old_v[p as int], old_v[b - 1]);
                } else {
                    lemma_seq_lt_transitive(old_v[a], sv, old_v[p as int]);
                }
            }
        }
        assert forall|x: Seq<char>| nv.to_set().contains(x) == old_v.to_set().insert(sv).contains(x) by {
            if nv.contains(x) {
                let i = choose|i: int| 0 <= i < nv.len() && nv[i] == x;
                if i < p {
                    assert(old_v[i] == x);
                } else if i > p {
                    assert(old_v[i - 1] == x);
                }
            }
            if old_v.contains(x) {
                let i = choose|i: int| 0 <= i < old_v.len() && old_v[i] == x;
                if i < p {
                    assert(nv[i] == x);
                } else {
                    assert(nv[i + 1] == x);
                }
            }
            if x == sv {
                assert(nv[p as int] == x);
            }
        }
        assert(nv.to_set() =~= old_v.to_set().insert(sv));
    }
}

/// Appending an element adds it to the set of elements.
pub proof fn lemma_push_to_set<A>(s: Seq<A>, x: A)
    ensures
        s.push(x).to_set() == s.to_set().insert(x),
{
    assert forall|y: A| s.push(x).to_set().contains(y) == s.to_set().insert(x).contains(y) by {
        if s.push(x).contains(y) {
            let i = choose|i: int| 0 <= i < s.push(x).len() && s.push(x)[i] == y;
            if i < s.len() {
                assert(s[i] == y);
            }
        }
        if s.contains(y) {
            let i = choose|i: int| 0 <= i < s.len() && s[i] == y;
            assert(s.push(x)[i] == y);
        }
        if y == x {
            assert(s.push(x)[s.len() as int] == y);
        }
    }
    assert(s.push(x).to_set() =~= s.to_set().insert(x));
}

/// Two strictly sorted lists with the same elements are the same list.
pub proof fn lemma_sorted_unique(a: Seq<Seq<char>>, b: Seq<Seq<char>>)
    requires
        strictly_sorted(a),
        strictly_sorted(b),
        a.to_set() == b.to_set(),
    ensures
        a == b,
    decreases a.len(),
{
    if a.len() == 0 {
        if b.len() > 0 {
            assert(b.to_set().contains(b[0]));
        }
        assert(a =~= b);
    } else if b.len() == 0 {
        assert(a.to_set().contains(a[0]));
    } else {
        // The first elements are both the least of the common set.
        assert(a.to_set().contains(a[0]));
        assert(b.to_set().contains(b[0]));
        let i = choose|i: int| 0 <= i < b.len() && b[i] == a[0];
        let j = choose|j: int| 0 <= j < a.len() && a[j] == b[0];
        if i > 0 {
            assert(seq_lt(b[0], b[i]));
            if j > 0 {
                assert(seq_lt(a[0], a[j]));
                lemma_seq_lt_asymmetric(a[0], b[0]);
            } else {
                lemma_seq_lt_irreflexive(a[0]);
            }
        }
        assert(a[0] == b[0]);
        let ra = a.drop_first();
        let rb = b.drop_first();
        assert forall|x: Seq<char>| ra.to_set().contains(x) == rb.to_set().contains(x) by {
            if ra.contains(x) {
                let k = choose|k: int| 0 <= k < ra.len() && ra[k] == x;
                assert(a[k + 1] == x);
                assert(seq_lt(a[0], x));
                assert(b.to_set().contains(x));
                let m = choose|m: int| 0 <= m < b.len() && b[m] == x;
                if m == 0 {
                    lemma_seq_lt_irreflexive(x);
                }
                assert(rb[m - 1] == x);
            }
            if rb.contains(x) {
                let k = choose|k: int| 0 <= k < rb.len() && rb[k] == x;
                assert(b[k + 1] == x);
                assert(seq_lt(b[0], x));
                assert(a.to_set().contains(x));
                let m = choose|m: int| 0 <= m < a.len() && a[m] == x;
                if m == 0 {
                    lemma_seq_lt_irreflexive(x);
                }
                assert(ra[m - 1] == x);
            }
        }
        assert(ra.to_set() =~= rb.to_set());
        assert forall|x: int, y: int| 0 <= x < y < ra.len() implies seq_lt(#[trigger] ra[x], #[trigger] ra[y]) by {
            assert(ra[x] == a[x + 1]);
            assert(ra[y] == a[y + 1]);
        }
        assert forall|x: int, y: int| 0 <= x < y < rb.len() implies seq_lt(#[trigger] rb[x], #[trigger] rb[y]) by {
            assert(rb[x] == b[x + 1]);
            assert(rb[y] == b[y + 1]);
        }
        lemma_sorted_unique(ra, rb);
        assert(a =~= seq![a[0]] + ra);
        assert(b =~= seq![b[0]] + rb);
    }
}

// ---------------------------------------------------------------------------
// Whitespace splitting, trimming, substrings, numbers.
// ---------------------------------------------------------------------------

pub open spec fn ws() -> spec_fn(char) -> bool {
    |c: char| unicode_whitespace(c)
}

/// `str::split_whitespace`: the maximal runs of non-whitespace characters.
pub open spec fn ws_words(s: Seq<char>) -> Seq<Seq<char>> {
    fields(s, ws()).filter(is_nonempty())
}

/// The whitespace-separated words of `s` (see [`ws_words`]).
pub fn split_ws(s: &str) -> (out: Vec<String>)
    ensures
        views(out@) == ws_words(s@),
{
    let mut out: Vec<String> = Vec::new();
    let mut cur = String::new();
    let ghost seen: Seq<char> = Seq::empty();
    for c in it: s.chars()
        invariant
            seen == it.seq().take(it.index() as int),
            fields(seen, ws()).len() >= 1,
            views(out@) == fields(seen, ws()).drop_last().filter(is_nonempty()),
            cur@ == fields(seen, ws()).last(),
    {
        proof {
            lemma_fields_push(seen, c, ws());
            assert(it.seq().take(it.index() + 1) =~= seen.push(c));
        }
        if is_whitespace(c) {
            let ghost before = fields(seen, ws());
            proof {
                assert(fields(seen.push(c), ws()).drop_last() =~= before);
                assert(before =~= before.drop_last().push(before.last()));
                lemma_filter_push(before.drop_last(), before.last(), is_nonempty());
            }
            if cur.as_str().is_empty() {
                cur = String::new();
            } else {
                let done = cur;
                out.push(done);
                cur = String::new();
            }
            proof {
                assert(views(out@) =~= fields(seen.push(c), ws()).drop_last().filter(is_nonempty()));
            }
        } else {
            push_char(&mut cur, c);
            proof {
                assert(fields(seen.push(c), ws()).drop_last() =~= fields(seen, ws()).drop_last());
            }
        }
        proof {
            seen = seen.push(c);
        }
    }
    proof {
        assert(seen =~= s@);
        lemma_fields_nonempty(seen, ws());
        let all = fields(seen, ws());
        assert(all =~= all.drop_last().push(all.last()));
        lemma_filter_push(all.drop_last(), all.last(), is_nonempty());
    }
    if !cur.as_str().is_empty() {
        out.push(cur);
    }
    proof {
        assert(views(out@) =~= ws_words(s@));
    }
    out
}

/// The characters `cs[a..b]` as a string.
pub fn string_of(cs: &Vec<char>, a: usize, b: usize) -> (r: String)
    requires
        a <= b <= cs.len(),
    ensures
        r@ == cs@.subrange(a as int, b as int),
{
    let mut r = String::new();
    let mut k = a;
    while k < b
        invariant
            a <= k <= b <= cs.len(),
            r@ == cs@.subrange(a as int, k as int),
        decreases b - k,
    {
        push_char(&mut r, cs[k]);
        proof {
            assert(cs@.subrange(a as int, k + 1) =~= cs@.subrange(a as int, k as int).push(cs@[k as int]));
        }
        k = k + 1;
    }
    r
}

/// `s.trim()`, owned.
pub fn trim_str(s: &str) -> (r: String)
    ensures
        r@ == trim(s@),
{
    let cs = chars_of(s);
    let (a, b) = trim_range(&cs, 0, cs.len());
    proof {
        assert(cs@.subrange(0, cs.len() as int) =~= cs@);
    }
    string_of(&cs, a, b)
}

/// `needle` occurs in `hay` as a run of consecutive characters.
pub open spec fn contains_sub(hay: Seq<char>, needle: Seq<char>) -> bool {
    exists|i: int| 0 <= i && i + needle.len() <= hay.len() && #[trigger] hay.subrange(i, i + needle.len()) == needle
}

/// `hay.contains(needle)` for a string needle.
pub fn contains_str(hay: &str, needle: &str) -> (r: bool)
    ensures
        r == contains_sub(hay@, needle@),
{
    let h = chars_of(hay);
    let n = chars_of(needle);
    if n.len() > h.len() {
        return false;
    }
    let last = h.len() - n.len();
    let mut i: usize = 0;
    while i <= last
        invariant
            h@ == hay@,
            n@ == needle@,
            last == h.len() - n.len(),
            i <= last + 1,
            forall|j: int| 0 <= j < i ==> #[trigger] h@.subrange(j, j + n.len()) != n@,
        decreases last + 1 - i,
    {
        let mut k: usize = 0;
        let mut same = true;
        while k < n.len()
            invariant
                h@ == hay@,
                n@ == needle@,
                i <= last,
                last == h.len() - n.len(),
                k <= n.len(),
                same == (forall|m: int| 0 <= m < k ==> h@[i + m] == n@[m]),
            decreases n.len() - k,
        {
            if h[i + k] != n[k] {
                same = false;
            }
            k = k + 1;
        }
        if same {
            proof {
                assert(h@.subrange(i as int, i + n.len()) =~= n@);
            }
            return true;
        }
        proof {
            let m = choose|m: int| 0 <= m < n.len() && h@[i + m] != n@[m];
            assert(h@.subrange(i as int, i + n.len())[m] != n@[m]);
        }
        i = i + 1;
    }
    proof {
        assert forall|j: int| 0 <= j && j + needle@.len() <= hay@.len() implies #[trigger] hay@.subrange(j, j + needle@.len()) != needle@ by {
            assert(j < i);
        }
    }
    false
}

/// The decimal digit `d`.
pub open spec fn digit_char(d: int) -> char {
    if d == 0 { '0' } else if d == 1 { '1' } else if d == 2 { '2' } else if d == 3 { '3' }
    else if d == 4 { '4' } else if d == 5 { '5' } else if d == 6 { '6' } else if d == 7 { '7' }
    else if d == 8 { '8' } else { '9' }
}

/// The decimal digits of `n`, most significant first, without leading zeros.
pub open spec fn digits(n: nat) -> Seq<char>
    decreases n,
{
    if n < 10 {
        seq![digit_char(n as int)]
    } else {
        digits(n / 10).push(digit_char((n % 10) as int))
    }
}

/// How `Display` writes an integer: a minus sign for negatives, then the digits.
pub open spec fn decimal(n: int) -> Seq<char> {
    if n < 0 {
        seq!['-'] + digits((-n) as nat)
    } else {
        digits(n as nat)
    }
}

fn digit(d: u64) -> (r: char)
    requires
        d < 10,
    ensures
        r == digit_char(d as int),
{
    if d == 0 { '0' } else if d == 1 { '1' } else if d == 2 { '2' } else if d == 3 { '3' }
    else if d == 4 { '4' } else if d == 5 { '5' } else if d == 6 { '6' } else if d == 7 { '7' }
    else if d == 8 { '8' } else { '9' }
}

/// Append `n` in decimal.
pub fn push_decimal(s: &mut String, n: i32)
    ensures
        final(s)@ == old(s)@ + decimal(n as int),
{
    let wide: i64 = n as i64;
    let mag: u64 = if wide < 0 { (-wide) as u64 } else { wide as u64 };
    let mut m: u64 = mag;
    let mut tail: Vec<char> = Vec::new();
    while m >= 10
        invariant
            digits(mag as nat) == digits(m as nat) + tail@,
        decreases m,
    {
        let d = m % 10;
        let c = digit(d);
        let ghost old_tail = tail@;
        tail.insert(0, c);
        proof {
            assert(digits(m as nat) == digits((m / 10) as nat).push(digit_char((m % 10) as int)));
            assert(tail@ =~= seq![c] + old_tail);
            assert(digits(m as nat) + old_tail =~= digits((m / 10) as nat) + tail@);
        }
        m = m / 10;
    }
    if n < 0 {
        push_char(s, '-');
    }
    let c = digit(m);
    push_char(s, c);
    let ghost head = s@;
    let mut k: usize = 0;
    while k < tail.len()
        invariant
            k <= tail.len(),
            s@ == head + tail@.take(k as int),
        decreases tail.len() - k,
    {
        push_char(s, tail[k]);
        proof {
            assert(tail@.take(k + 1) =~= tail@.take(k as int).push(tail@[k as int]));
        }
        k = k + 1;
    }
    proof {
        assert(tail@.take(tail.len() as int) =~= tail@);
        assert(digits(m as nat) =~= seq![c]);
        if n < 0 {
            assert((-(n as int)) as nat == mag as nat);
        } else {
            assert(n as nat == mag as nat);
        }
    }
}

/// Whether `v` holds a string equal to `s`.
pub fn contains_string(v: &[String], s: &str) -> (r: bool)
    ensures
        r == views(v@).contains(s@),
{
    let mut k: usize = 0;
    while k < v.len()
        invariant
            k <= v@.len(),
            forall|j: int| 0 <= j < k ==> (#[trigger] v@[j])@ != s@,
        decreases v@.len() - k,
    {
        if str_eq(v[k].as_str(), s) {
            proof {
                assert(views(v@)[k as int] == s@);
            }
            return true;
        }
        k = k + 1;
    }
    proof {
        if views(v@).contains(s@) {
            let j = choose|j: int| 0 <= j < views(v@).len() && views(v@)[j] == s@;
            assert(v@[j]@ == s@);
        }
    }
    false
}

/// A line without the `\r` of a `\r\n` ending.
pub open spec fn strip_cr(f: Seq<char>) -> Seq<char> {
    if f.len() > 0 && f.last() == '\r' {
        f.drop_last()
    } else {
        f
    }
}

/// `str::lines`: the text split after each `\n`, without the line endings
/// (`\n` or `\r\n`); a final line ending adds no empty line.
pub open spec fn text_lines(s: Seq<char>) -> Seq<Seq<char>> {
    let fs = fields(s, char_is('\n'));
    let body = fs.drop_last().map_values(|f: Seq<char>| strip_cr(f));
    if fs.last().len() > 0 {
        body.push(fs.last())
    } else {
        body
    }
}

fn strip_cr_string(f: &str) -> (r: String)
    ensures
        r@ == strip_cr(f@),
{
    let cs = chars_of(f);
    if cs.len() > 0 && cs[cs.len() - 1] == '\r' {
        let r = string_of(&cs, 0, cs.len() - 1);
        proof {
            assert(cs@.subrange(0, cs.len() - 1) =~= f@.drop_last());
        }
        r
    } else {
        let r = string_of(&cs, 0, cs.len());
        proof {
            assert(cs@.subrange(0, cs.len() as int) =~= f@);
        }
        r
    }
}

/// The lines of a text (see [`text_lines`]).
pub fn lines_of(s: &str) -> (r: Vec<String>)
    ensures
        views(r@) == text_lines(s@),
{
    let fs = split_char(s, '\n');
    let ghost all = fields(s@, char_is('\n'));
    proof {
        lemma_fields_nonempty(s@, char_is('\n'));
        assert(views(fs@).len() == fs@.len());
    }
    let n = fs.len();
    let mut out: Vec<String> = Vec::new();
    let mut k: usize = 0;
    while k + 1 < n
        invariant
            n == fs@.len(),
            n >= 1,
            views(fs@) == all,
            all == fields(s@, char_is('\n')),
            k + 1 <= n,
            views(out@) == all.drop_last().map_values(|f: Seq<char>| strip_cr(f)).take(k as int),
        decreases n - k,
    {
        let line = strip_cr_string(fs[k].as_str());
        let ghost prev = views(out@);
        out.push(line);
        proof {
            assert(fs@[k as int]@ == all[k as int]);
            assert(views(out@) =~= prev.push(strip_cr(all[k as int])));
            assert(all.drop_last().map_values(|f: Seq<char>| strip_cr(f)).take(k + 1)
                =~= all.drop_last().map_values(|f: Seq<char>| strip_cr(f)).take(k as int).push(strip_cr(all[k as int])));
        }
        k = k + 1;
    }
    proof {
        assert(all.drop_last().map_values(|f: Seq<char>| strip_cr(f)).take(k as int)
            =~= all.drop_last().map_values(|f: Seq<char>| strip_cr(f)));
        assert(fs@[n - 1]@ == all.last());
    }
    if !fs[n - 1].as_str().is_empty() {
        let ghost prev = views(out@);
        let last = fs[n - 1].clone();
        out.push(last);
        proof {
            assert(views(out@) =~= prev.push(all.last()));
        }
    }
    out
}

/// No field contains a separator character.
pub proof fn lemma_fields_exclude_sep(s: Seq<char>, sep: spec_fn(char) -> bool)
    ensures
        forall|k: int, i: int| 0 <= k < fields(s, sep).len() && 0 <= i < fields(s, sep)[k].len()
            ==> !sep(#[trigger] fields(s, sep)[k][i]),
    decreases s.len(),
{
    lemma_fields_nonempty(s, sep);
    if s.len() > 0 {
        lemma_fields_exclude_sep(s.drop_last(), sep);
        lemma_fields_nonempty(s.drop_last(), sep);
        let before = fields(s.drop_last(), sep);
        let now = fields(s, sep);
        assert forall|k: int, i: int| 0 <= k < now.len() && 0 <= i < now[k].len() implies !sep(#[trigger] now[k][i]) by {
            if sep(s.last()) {
                if k < before.len() {
                    assert(now[k] == before[k]);
                }
            } else {
                if k < before.len() - 1 {
                    assert(now[k] == before[k]);
                } else {
                    assert(now[k] == before.last().push(s.last()));
                    if i < before.last().len() {
                        assert(now[k][i] == before[before.len() - 1][i]);
                    }
                }
            }
        }
    }
}

/// Tokens are made of letters, digits and apostrophes only, and none is empty:
/// every other character (a space, a hyphen, punctuation) separates words
/// (`well-known` gives `well` and `known`).
pub proof fn lemma_words_are_alphanumeric_runs(s: Seq<char>)
    ensures
        forall|k: int| 0 <= k < words(s).len() ==> (#[trigger] words(s)[k]).len() > 0,
        forall|k: int, i: int| 0 <= k < words(s).len() && 0 <= i < words(s)[k].len()
            ==> unicode_alphanumeric(#[trigger] words(s)[k][i]) || words(s)[k][i] == '\'',
{
    let fs = fields(s, not_word_char());
    lemma_fields_exclude_sep(s, not_word_char());
    assert forall|k: int| 0 <= k < words(s).len() implies (#[trigger] words(s)[k]).len() > 0 by {
        fs.lemma_filter_pred(is_nonempty(), k);
    }
    assert forall|k: int, i: int| 0 <= k < words(s).len() && 0 <= i < words(s)[k].len()
        implies unicode_alphanumeric(#[trigger] words(s)[k][i]) || words(s)[k][i] == '\'' by {
        crate::gram::lemma_filter_subset(fs, is_nonempty(), k);
        let j = choose|j: int| 0 <= j < fs.len() && fs[j] == fs.filter(is_nonempty())[k];
        assert(fs[j][i] == words(s)[k][i]);
        assert(!not_word_char()(fs[j][i]));
    }
}

} // verus!
