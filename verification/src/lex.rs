//! The lexical layer: CEFR bands, unit kinds, and turning English text into words.
use vstd::prelude::*;

use crate::text::{
    char_is, fields, join, lemma_fields_concat, lemma_fields_of_join, lemma_fields_of_plain, no_char, lemma_filter_push, lines_of, push_char, push_str, split_char, split_words, str_eq, text_lines,
    to_lowercase,
    unicode_lowercase, views, words,
};

verus! {

/// A CEFR band. The order is significant: `A1 < C2`.
#[derive(Debug, Clone, Copy, PartialEq, Eq, PartialOrd, Ord, Hash, Structural)]
pub enum Cefr {
    A1,
    A2,
    B1,
    B2,
    C1,
    C2,
}

impl Cefr {
    /// Position on the scale, `A1` first.
    pub open spec fn ord(self) -> int {
        match self {
            Cefr::A1 => 0,
            Cefr::A2 => 1,
            Cefr::B1 => 2,
            Cefr::B2 => 3,
            Cefr::C1 => 4,
            Cefr::C2 => 5,
        }
    }

    /// The band's position on the scale, as a number (`A1` is `0`, `C2` is `5`).
    pub fn ordinal(self) -> (r: u8)
        ensures
            r == self.ord(),
    {
        match self {
            Cefr::A1 => 0,
            Cefr::A2 => 1,
            Cefr::B1 => 2,
            Cefr::B2 => 3,
            Cefr::C1 => 4,
            Cefr::C2 => 5,
        }
    }

    /// `self <= other` on the scale.
    pub fn at_most(self, other: Cefr) -> (r: bool)
        ensures
            r == (self.ord() <= other.ord()),
    {
        self.ordinal() <= other.ordinal()
    }

    pub open spec fn name(self) -> Seq<char> {
        match self {
            Cefr::A1 => seq!['A', '1'],
            Cefr::A2 => seq!['A', '2'],
            Cefr::B1 => seq!['B', '1'],
            Cefr::B2 => seq!['B', '2'],
            Cefr::C1 => seq!['C', '1'],
            Cefr::C2 => seq!['C', '2'],
        }
    }

    /// The band's name, as `Debug` writes it: `"B2"`.
    pub fn as_str(self) -> (r: &'static str)
        ensures
            r@ == self.name(),
    {
        proof {
            reveal_strlit("A1");
            reveal_strlit("A2");
            reveal_strlit("B1");
            reveal_strlit("B2");
            reveal_strlit("C1");
            reveal_strlit("C2");
        }
        match self {
            Cefr::A1 => "A1",
            Cefr::A2 => "A2",
            Cefr::B1 => "B1",
            Cefr::B2 => "B2",
            Cefr::C1 => "C1",
            Cefr::C2 => "C2",
        }
    }

    /// The band named `s` (`"B2"`), exactly; anything else is `None`.
    pub fn parse(s: &str) -> (r: Option<Cefr>)
        ensures
            r matches Some(c) ==> c.name() == s@,
            r is None ==> forall|c: Cefr| c.name() != s@,
    {
        proof {
            reveal_strlit("A1");
            reveal_strlit("A2");
            reveal_strlit("B1");
            reveal_strlit("B2");
            reveal_strlit("C1");
            reveal_strlit("C2");
        }
        if str_eq(s, "A1") {
            Some(Cefr::A1)
        } else if str_eq(s, "A2") {
            Some(Cefr::A2)
        } else if str_eq(s, "B1") {
            Some(Cefr::B1)
        } else if str_eq(s, "B2") {
            Some(Cefr::B2)
        } else if str_eq(s, "C1") {
            Some(Cefr::C1)
        } else if str_eq(s, "C2") {
            Some(Cefr::C2)
        } else {
            proof {
                assert forall|c: Cefr| c.name() != s@ by {
                    match c {
                        Cefr::A1 => assert("A1"@ =~= c.name()),
                        Cefr::A2 => assert("A2"@ =~= c.name()),
                        Cefr::B1 => assert("B1"@ =~= c.name()),
                        Cefr::B2 => assert("B2"@ =~= c.name()),
                        Cefr::C1 => assert("C1"@ =~= c.name()),
                        Cefr::C2 => assert("C2"@ =~= c.name()),
                    }
                }
            }
            None
        }
    }
}

/// Kind of a lexical unit.
#[derive(Debug, Clone, Copy, PartialEq, Eq, Hash, Structural)]
pub enum Kind {
    Word,
    PhrasalVerb,
    Idiom,
}

pub open spec fn kind_rank(kind: Kind) -> u8 {
    match kind {
        Kind::Word => 0,
        Kind::PhrasalVerb => 1,
        Kind::Idiom => 2,
    }
}

/// Preference of a kind when two readings are equally frequent: lower is preferred.
pub fn rank(kind: Kind) -> (r: u8)
    ensures
        r == kind_rank(kind),
{
    match kind {
        Kind::Word => 0,
        Kind::PhrasalVerb => 1,
        Kind::Idiom => 2,
    }
}

/// The tokens of an English text: its words (runs of alphanumerics and
/// apostrophes, so `don't` stays whole), lowercased.
pub open spec fn tokens(text: Seq<char>) -> Seq<Seq<char>> {
    words(text).map_values(|w: Seq<char>| unicode_lowercase(w))
}

/// Tokenization: lowercase words, an apostrophe inside a word kept (`don't`).
pub fn tokenize(text: &str) -> (out: Vec<String>)
    ensures
        views(out@) == tokens(text@),
{
    let ws = split_words(text);
    let mut out: Vec<String> = Vec::new();
    for i in 0..ws.len()
        invariant
            views(ws@) == words(text@),
            views(out@) == tokens(text@).take(i as int),
    {
        let t = to_lowercase(ws[i].as_str());
        let ghost prev = views(out@);
        out.push(t);
        proof {
            assert(views(out@) =~= prev.push(t@));
            assert(ws@[i as int]@ == views(ws@)[i as int]);
            assert(views(ws@).len() == ws@.len());
            assert(tokens(text@)[i as int] == unicode_lowercase(words(text@)[i as int]));
            assert(views(out@) =~= tokens(text@).take(i + 1));
        }
    }
    proof {
        assert(views(ws@).len() == ws@.len());
        assert(tokens(text@).take(ws.len() as int) =~= tokens(text@));
    }
    out
}

} // verus!

verus! {

/// An entry of the dictionary of forms.
#[derive(Debug, Clone, PartialEq, Eq)]
pub struct Lexeme {
    /// Stable key: `w:utility|noun`, `pv:move_in`.
    pub id: String,
    /// Canonical form: `utility`, `move in`.
    pub unit: String,
    pub kind: Kind,
    /// Part of speech (none for idioms).
    pub pos: Option<String>,
    pub cefr: Cefr,
    /// `true`: the level is our estimate (multiword units have none in any
    /// dictionary), not taken from a reference list.
    pub cefr_derived: bool,
    /// The unit's frequency (zipf: log10 occurrences per billion), as a key that
    /// orders exactly as the frequencies do (equal keys, equal frequencies).
    pub frequency_rank: u32,
    /// Whole part of the frequency; `None` when the unit has no positive
    /// frequency (absent from the unigram list, as every multiword unit is).
    pub frequency_band: Option<i32>,
}

/// A unit found in a text.
#[derive(Debug, Clone, PartialEq, Eq)]
pub struct Found {
    pub id: String,
    pub unit: String,
    pub kind: Kind,
    pub cefr: Cefr,
    pub cefr_derived: bool,
    pub frequency_rank: u32,
    pub frequency_band: Option<i32>,
    /// How the unit looked in the text (`utilities`, `moved in`).
    pub surface: String,
}

/// The analysis of a text.
#[derive(Debug, Clone, PartialEq, Eq)]
pub struct Analysis {
    /// Units in order of first appearance, without repeats.
    pub units: Vec<Found>,
    /// Words the dictionary does not know (names, typos, narrow vocabulary).
    pub unknown: Vec<String>,
}

/// The part-of-speech field of an id: what follows the first `|`.
pub open spec fn pos_field(id: Seq<char>) -> Seq<char> {
    let fs = fields(id, char_is('|'));
    if fs.len() >= 2 {
        fs[1]
    } else {
        Seq::empty()
    }
}

/// Function words: articles, prepositions, pronouns, conjunctions, numerals.
pub open spec fn function_pos(p: Seq<char>) -> bool {
    p == seq!['d', 'e', 't'] || p == seq!['p', 'r', 'e', 'p'] || p == seq!['p', 'r', 'o', 'n']
        || p == seq!['c', 'o', 'n', 'j'] || p == seq!['n', 'u', 'm']
}

pub open spec fn is_content_id(id: Seq<char>) -> bool {
    !function_pos(pos_field(id))
}

impl Found {
    /// A content unit (not an article, preposition, pronoun...): function words occur
    /// in every text and say nothing about its difficulty.
    pub fn is_content(&self) -> (r: bool)
        ensures
            r == is_content_id(self.id@),
    {
        let fs = split_char(self.id.as_str(), '|');
        proof {
            reveal_strlit("det");
            reveal_strlit("prep");
            reveal_strlit("pron");
            reveal_strlit("conj");
            reveal_strlit("num");
        }
        let function_word = if fs.len() >= 2 {
            let p = fs[1].as_str();
            proof {
                assert(p@ == views(fs@)[1]);
            }
            str_eq(p, "det") || str_eq(p, "prep") || str_eq(p, "pron") || str_eq(p, "conj")
                || str_eq(p, "num")
        } else {
            false
        };
        proof {
            assert(views(fs@).len() == fs@.len());
            assert("det"@ =~= seq!['d', 'e', 't']);
            assert("prep"@ =~= seq!['p', 'r', 'e', 'p']);
            assert("pron"@ =~= seq!['p', 'r', 'o', 'n']);
            assert("conj"@ =~= seq!['c', 'o', 'n', 'j']);
            assert("num"@ =~= seq!['n', 'u', 'm']);
        }
        !function_word
    }
}

/// Levels of the content units, in order.
pub open spec fn content_levels(units: Seq<Found>) -> Seq<Cefr> {
    units.filter(content_unit()).map_values(|u: Found| u.cefr)
}

pub open spec fn content_unit() -> spec_fn(Found) -> bool {
    |u: Found| is_content_id(u.id@)
}

pub open spec fn below_level(c: int) -> spec_fn(Cefr) -> bool {
    |l: Cefr| l.ord() < c
}

/// How many of `ls` are strictly below / at most level `c`.
pub open spec fn count_below(ls: Seq<Cefr>, c: int) -> nat {
    ls.filter(below_level(c)).len()
}

/// Position of the 90th percentile among `n` sorted values: `ceil(0.9 n) - 1`,
/// which for whole `n` is `n - floor(n / 10) - 1`.
pub open spec fn percentile_90_index(n: int) -> int {
    n - n / 10 - 1
}

impl Analysis {
    /// Lexical difficulty of the text: the level at which a student understands
    /// almost everything. The 90th percentile over content units, not the maximum
    /// (one rare word should not make a text C2) nor the median (which hides the
    /// very units a student would stumble on). `None` without content units.
    pub fn difficulty(&self) -> (r: Option<Cefr>)
        ensures
            r is None <==> content_levels(self.units@).len() == 0,
            r matches Some(c) ==> {
                let ls = content_levels(self.units@);
                let idx = percentile_90_index(ls.len() as int);
                count_below(ls, c.ord()) <= idx < count_below(ls, c.ord() + 1)
            },
    {
        let mut counts: Vec<usize> = vec![0, 0, 0, 0, 0, 0];
        let mut n: usize = 0;
        let mut i: usize = 0;
        proof {
            reveal(Seq::filter);
            assert(self.units@.take(0) =~= Seq::<Found>::empty());
            assert forall|c: int| 0 <= c <= 6 implies #[trigger] count_below(content_levels(self.units@.take(0)), c)
                == sum_prefix(counts@, c) by {
                lemma_sum_prefix_zero(counts@, c);
            }
        }
        while i < self.units.len()
            invariant
                i <= self.units@.len(),
                counts.len() == 6,
                n == content_levels(self.units@.take(i as int)).len(),
                n <= i,
                forall|k: int| 0 <= k < 6 ==> #[trigger] counts@[k] <= n,
                forall|c: int| 0 <= c <= 6 ==> #[trigger] count_below(content_levels(self.units@.take(i as int)), c)
                    == sum_prefix(counts@, c),
            decreases self.units@.len() - i,
        {
            let u = &self.units[i];
            let ghost before = content_levels(self.units@.take(i as int));
            proof {
                assert(self.units@.take(i + 1) =~= self.units@.take(i as int).push(*u));
                lemma_filter_push(self.units@.take(i as int), *u, content_unit());
            }
            if u.is_content() {
                let k = u.cefr.ordinal() as usize;
                let ghost old_counts = counts@;
                counts.set(k, counts[k] + 1);
                n = n + 1;
                proof {
                    let after = content_levels(self.units@.take(i + 1));
                    assert(content_unit()(*u));
                    assert(self.units@.take(i + 1).filter(content_unit()) == self.units@.take(i as int).filter(content_unit()).push(*u));
                    assert(after =~= before.push(u.cefr));
                    assert forall|c: int| 0 <= c <= 6 implies #[trigger] count_below(after, c) == sum_prefix(counts@, c) by {
                        lemma_filter_push(before, u.cefr, below_level(c));
                        lemma_sum_prefix_bump(old_counts, k as int, c);
                        assert(count_below(before, c) == sum_prefix(old_counts, c));
                        assert(counts@ == old_counts.update(k as int, (old_counts[k as int] + 1) as usize));
                        assert(below_level(c)(u.cefr) == (k < c));
                    }
                }
            } else {
                proof {
                    assert(!content_unit()(*u));
                    assert(self.units@.take(i + 1).filter(content_unit()) == self.units@.take(i as int).filter(content_unit()));
                    assert(content_levels(self.units@.take(i + 1)) =~= before);
                }
            }
            i = i + 1;
        }
        proof {
            assert(self.units@.take(i as int) =~= self.units@);
        }
        if n == 0 {
            return None;
        }
        let idx: usize = n - n / 10 - 1;
        let ghost ls = content_levels(self.units@);
        proof {
            lemma_count_below_all(ls);
        }
        let mut below: usize = 0;
        let mut c: usize = 0;
        while c < 6
            invariant
                counts.len() == 6,
                c <= 6,
                below == sum_prefix(counts@, c as int),
                below <= idx,
                idx < n,
                n == ls.len(),
                idx == percentile_90_index(n as int),
                ls == content_levels(self.units@),
                forall|c: int| 0 <= c <= 6 ==> #[trigger] count_below(ls, c) == sum_prefix(counts@, c),
                count_below(ls, 6) == n,
            decreases 6 - c,
        {
            proof {
                ls.lemma_filter_len(below_level(c + 1));
                assert(count_below(ls, c + 1) == sum_prefix(counts@, c + 1));
                assert(count_below(ls, c as int) == sum_prefix(counts@, c as int));
                assert(idx == percentile_90_index(ls.len() as int));
                assert(ls.len() > 0);
            }
            if idx < below + counts[c] {
                let r = level_at(c);
                return Some(r);
            }
            below = below + counts[c];
            c = c + 1;
        }
        proof {
            assert(below == n);
        }
        None
    }
}

/// Sum of the first `c` counts.
pub open spec fn sum_prefix(counts: Seq<usize>, c: int) -> int
    decreases c,
{
    if c <= 0 {
        0
    } else {
        sum_prefix(counts, c - 1) + counts[c - 1]
    }
}

proof fn lemma_sum_prefix_zero(counts: Seq<usize>, c: int)
    requires
        forall|k: int| 0 <= k < counts.len() ==> counts[k] == 0,
        c <= counts.len(),
    ensures
        sum_prefix(counts, c) == 0,
    decreases c,
{
    if c > 0 {
        lemma_sum_prefix_zero(counts, c - 1);
    }
}

proof fn lemma_sum_prefix_bump(counts: Seq<usize>, k: int, c: int)
    requires
        0 <= k < counts.len(),
        0 <= c <= counts.len(),
        counts[k] < usize::MAX,
    ensures
        sum_prefix(counts.update(k, (counts[k] + 1) as usize), c) == sum_prefix(counts, c) + if k < c { 1int } else { 0int },
    decreases c,
{
    if c > 0 {
        lemma_sum_prefix_bump(counts, k, c - 1);
    }
}

proof fn lemma_count_below_all(ls: Seq<Cefr>)
    ensures
        count_below(ls, 6) == ls.len(),
    decreases ls.len(),
{
    reveal(Seq::filter);
    if ls.len() > 0 {
        lemma_count_below_all(ls.drop_last());
    }
}

fn level_at(c: usize) -> (r: Cefr)
    requires
        c < 6,
    ensures
        r.ord() == c,
{
    if c == 0 {
        Cefr::A1
    } else if c == 1 {
        Cefr::A2
    } else if c == 2 {
        Cefr::B1
    } else if c == 3 {
        Cefr::B2
    } else if c == 4 {
        Cefr::C1
    } else {
        Cefr::C2
    }
}

} // verus!

verus! {

/// One row of the lexicon file, as the file states it. The frequency is left as
/// text: turning it into a number is floating-point work done by the loader.
#[derive(Debug, Clone, PartialEq, Eq)]
pub struct LexiconRow {
    pub id: String,
    pub unit: String,
    pub kind: Kind,
    pub pos: Option<String>,
    pub cefr: Cefr,
    pub cefr_derived: bool,
    pub zipf: String,
}

pub open spec fn kind_named(s: Seq<char>) -> Kind {
    if s == seq!['p', 'h', 'r', 'a', 's', 'a', 'l', '_', 'v', 'e', 'r', 'b'] {
        Kind::PhrasalVerb
    } else if s == seq!['i', 'd', 'i', 'o', 'm'] {
        Kind::Idiom
    } else {
        Kind::Word
    }
}

pub open spec fn tab_fields(line: Seq<char>) -> Seq<Seq<char>> {
    fields(line, char_is('\t'))
}

/// `line` is an entry: seven fields, the fifth a CEFR band.
pub open spec fn entry_line(line: Seq<char>) -> bool {
    tab_fields(line).len() == 7 && exists|c: Cefr| c.name() == tab_fields(line)[4]
}

/// `row` is what entry `line` states.
pub open spec fn row_of(line: Seq<char>, row: LexiconRow) -> bool {
    let f = tab_fields(line);
    &&& row.id@ == f[0]
    &&& row.unit@ == f[1]
    &&& row.kind == kind_named(f[2])
    &&& (f[3].len() == 0 ==> row.pos is None)
    &&& (f[3].len() > 0 ==> (row.pos matches Some(p) && p@ == f[3]))
    &&& row.cefr.name() == f[4]
    &&& row.cefr_derived == (f[5] == seq!['d', 'e', 'r', 'i', 'v', 'e', 'd'])
    &&& row.zipf@ == f[6]
}

/// Parse one line of the lexicon (`id, unit, kind, pos, cefr, derived, zipf`,
/// tab-separated). A line with another number of fields, or whose level is not a
/// CEFR band, is not an entry.
pub fn parse_lexicon_line(line: &str) -> (r: Option<LexiconRow>)
    ensures
        r is Some <==> entry_line(line@),
        r matches Some(row) ==> row_of(line@, row),
{
    let f = split_char(line, '\t');
    proof {
        assert(views(f@).len() == f@.len());
    }
    if f.len() != 7 {
        return None;
    }
    let cefr = match Cefr::parse(f[4].as_str()) {
        Some(c) => c,
        None => {
            proof {
                assert(f@[4]@ == tab_fields(line@)[4]);
            }
            return None;
        },
    };
    proof {
        reveal_strlit("phrasal_verb");
        reveal_strlit("idiom");
        reveal_strlit("derived");
        assert("phrasal_verb"@ =~= seq!['p', 'h', 'r', 'a', 's', 'a', 'l', '_', 'v', 'e', 'r', 'b']);
        assert("idiom"@ =~= seq!['i', 'd', 'i', 'o', 'm']);
        assert("derived"@ =~= seq!['d', 'e', 'r', 'i', 'v', 'e', 'd']);
        assert forall|k: int| 0 <= k < 7 implies (#[trigger] f@[k])@ == tab_fields(line@)[k] by {
            assert(views(f@)[k] == f@[k]@);
        }
    }
    let kind = if str_eq(f[2].as_str(), "phrasal_verb") {
        Kind::PhrasalVerb
    } else if str_eq(f[2].as_str(), "idiom") {
        Kind::Idiom
    } else {
        Kind::Word
    };
    let pos = if f[3].as_str().is_empty() {
        None
    } else {
        Some(f[3].clone())
    };
    let derived = str_eq(f[5].as_str(), "derived");
    Some(LexiconRow {
        id: f[0].clone(),
        unit: f[1].clone(),
        kind,
        pos,
        cefr,
        cefr_derived: derived,
        zipf: f[6].clone(),
    })
}

pub open spec fn is_entry_line() -> spec_fn(Seq<char>) -> bool {
    |l: Seq<char>| entry_line(l)
}

/// The lines of the lexicon after its header.
pub open spec fn data_lines(tsv: Seq<char>) -> Seq<Seq<char>> {
    let ls = text_lines(tsv);
    if ls.len() > 0 {
        ls.skip(1)
    } else {
        Seq::empty()
    }
}

/// The entries of a lexicon file: every line after the header that is an
/// entry, in order; other lines are skipped.
pub fn parse_lexicon(tsv: &str) -> (r: Vec<LexiconRow>)
    ensures
        r@.len() == data_lines(tsv@).filter(is_entry_line()).len(),
        forall|k: int| 0 <= k < r@.len() ==> row_of(data_lines(tsv@).filter(is_entry_line())[k], #[trigger] r@[k]),
{
    let ls = lines_of(tsv);
    let ghost all = views(ls@);
    let ghost data = data_lines(tsv@);
    proof {
        assert(all.len() == ls@.len());
    }
    let mut out: Vec<LexiconRow> = Vec::new();
    if ls.len() == 0 {
        proof {
            reveal(Seq::filter);
            assert(data =~= Seq::<Seq<char>>::empty());
        }
        return out;
    }
    let mut k: usize = 1;
    proof {
        reveal(Seq::filter);
        assert(data.take(0) =~= Seq::<Seq<char>>::empty());
    }
    while k < ls.len()
        invariant
            1 <= k <= ls@.len(),
            all == views(ls@),
            all == text_lines(tsv@),
            data == all.skip(1),
            out@.len() == data.take(k - 1).filter(is_entry_line()).len(),
            forall|j: int| 0 <= j < out@.len() ==> row_of(data.take(k - 1).filter(is_entry_line())[j], #[trigger] out@[j]),
        decreases ls@.len() - k,
    {
        let ghost before = data.take(k - 1).filter(is_entry_line());
        proof {
            assert(all[k as int] == ls@[k as int]@);
            assert(data.take(k as int) =~= data.take(k - 1).push(all[k as int]));
            lemma_filter_push(data.take(k - 1), all[k as int], is_entry_line());
        }
        match parse_lexicon_line(ls[k].as_str()) {
            Some(row) => {
                let ghost old_out = out@;
                out.push(row);
                proof {
                    assert forall|j: int| 0 <= j < out@.len() implies row_of(data.take(k as int).filter(is_entry_line())[j], #[trigger] out@[j]) by {
                        if j < old_out.len() {
                            assert(out@[j] == old_out[j]);
                        }
                    }
                }
            },
            None => {},
        }
        k = k + 1;
    }
    proof {
        assert(data.take(k - 1) =~= data);
    }
    out
}

} // verus!

verus! {

#[verifier::external_type_specification]
#[verifier::external_body]
pub struct ExLemmatizer(wordnet_lemmatizer::Lemmatizer);

/// A part of speech WordNet lemmatizes by.
#[derive(Debug, Clone, Copy, PartialEq, Eq, Hash, Structural)]
pub enum WordClass {
    Verb,
    Noun,
    Adjective,
    Adverb,
}

/// The order in which the head of a window is lemmatized: verb, noun,
/// adjective, adverb.
pub open spec fn class_at(p: int) -> WordClass {
    if p == 0 {
        WordClass::Verb
    } else if p == 1 {
        WordClass::Noun
    } else if p == 2 {
        WordClass::Adjective
    } else {
        WordClass::Adverb
    }
}

fn class_at_step(p: u8) -> (r: WordClass)
    requires
        p < 4,
    ensures
        r == class_at(p as int),
{
    if p == 0 {
        WordClass::Verb
    } else if p == 1 {
        WordClass::Noun
    } else if p == 2 {
        WordClass::Adjective
    } else {
        WordClass::Adverb
    }
}

/// The WordNet lemma of `word` for a word class: among `word` itself and the
/// forms WordNet's exception lists or suffix rules derive from it, those that
/// are WordNet lemmas, the first of the shortest; `word` itself when there is
/// none. Over the WordNet data the lemmatizer crate embeds.
pub uninterp spec fn wordnet_lemma(word: Seq<char>, class: WordClass) -> Seq<char>;

/// WordNet's lemmatizer over the data the crate embeds. Only
/// [`embedded_lemmas`] builds one.
struct Lemmas(wordnet_lemmatizer::Lemmatizer);

/// Calls `Lemmatizer::embedded`: the lemmatizer over the WordNet data built
/// into the crate.
#[verifier::external_body]
fn embedded_lemmas() -> Lemmas {
    Lemmas(wordnet_lemmatizer::Lemmatizer::embedded())
}

/// Calls `Lemmatizer::lemmatize` (see [`wordnet_lemma`]), which depends on the
/// word, the class and the lemmatizer's data alone; every [`Lemmas`] holds the
/// embedded data.
#[verifier::external_body]
fn lemmatize(lemmas: &Lemmas, word: &str, class: WordClass) -> (r: String)
    ensures
        r@ == wordnet_lemma(word@, class),
{
    let pos = match class {
        WordClass::Verb => wordnet_lemmatizer::Pos::Verb,
        WordClass::Noun => wordnet_lemmatizer::Pos::Noun,
        WordClass::Adjective => wordnet_lemmatizer::Pos::Adj,
        WordClass::Adverb => wordnet_lemmatizer::Pos::Adv,
    };
    lemmas.0.lemmatize(word, pos)
}

/// The longest multiword unit, in tokens (`get away with` is 3; one to spare).
pub const MAX_MWE_LEN: usize = 4;

/// The whole dictionary of forms.
pub struct Dict {
    entries: Vec<Lexeme>,
    lemmatizer: Lemmas,
}

impl View for Dict {
    type V = Seq<Lexeme>;

    closed spec fn view(&self) -> Seq<Lexeme> {
        self.entries@
    }
}

/// `a` is the preferred reading over `b`: more frequent, or as frequent and of a
/// preferred kind.
pub open spec fn preferred(a: Lexeme, b: Lexeme) -> bool {
    a.frequency_rank > b.frequency_rank || (a.frequency_rank == b.frequency_rank && kind_rank(b.kind) > kind_rank(a.kind))
}

/// The reading `Iterator::max_by` picks: the preferred one, the later of equals.
pub open spec fn pick(s: Seq<Lexeme>) -> Option<Lexeme>
    decreases s.len(),
{
    if s.len() == 0 {
        None
    } else {
        match pick(s.drop_last()) {
            None => Some(s.last()),
            Some(m) => if preferred(m, s.last()) { Some(m) } else { Some(s.last()) },
        }
    }
}

pub open spec fn unit_is(u: Seq<char>) -> spec_fn(Lexeme) -> bool {
    |l: Lexeme| l.unit@ == u
}

/// The dictionary's reading of a canonical form.
pub open spec fn lookup_in(d: Seq<Lexeme>, unit: Seq<char>) -> Option<Lexeme> {
    pick(d.filter(unit_is(unit)))
}

pub open spec fn opt_deref<T>(o: Option<&T>) -> Option<T> {
    match o {
        Some(x) => Some(*x),
        None => None,
    }
}

/// A token window with its head replaced by `lemma`: `moved in` becomes `move in`.
pub open spec fn with_head(window: Seq<Seq<char>>, lemma: Seq<char>) -> Seq<char> {
    if window.len() == 1 {
        lemma
    } else {
        lemma.push(' ') + join(window.skip(1), ' ')
    }
}

/// Trying the head's lemma for the parts of speech from `p` on.
pub open spec fn match_lemmas(d: Seq<Lexeme>, window: Seq<Seq<char>>, p: int) -> Option<Lexeme>
    decreases 4 - p,
{
    if p < 0 || p >= 4 {
        None
    } else {
        let head = window[0];
        let lemma = wordnet_lemma(head, class_at(p));
        if lemma == head {
            match_lemmas(d, window, p + 1)
        } else {
            match lookup_in(d, with_head(window, lemma)) {
                Some(l) => Some(l),
                None => match_lemmas(d, window, p + 1),
            }
        }
    }
}

/// The unit a token window stands for: the window as it is, else with the lemma of
/// its head (verb, noun, adjective, adverb, in that order).
pub open spec fn window_match(d: Seq<Lexeme>, window: Seq<Seq<char>>) -> Option<Lexeme> {
    match lookup_in(d, join(window, ' ')) {
        Some(l) => Some(l),
        None => match_lemmas(d, window, 0),
    }
}

impl Dict {
    /// A dictionary over these entries, with WordNet's lemmatizer.
    pub fn from_lexemes(entries: Vec<Lexeme>) -> (r: Dict)
        ensures
            r@ == entries@,
    {
        Dict { entries, lemmatizer: embedded_lemmas() }
    }

    /// The unit with this canonical form. Homonyms (`cover` verb and noun) are told
    /// apart by frequency, the most frequent reading winning; at equal frequency
    /// (always so for multiword units) the kind decides: word, then phrasal verb,
    /// then idiom; and at equal kind, the later entry.
    pub fn lookup(&self, unit: &str) -> (r: Option<&Lexeme>)
        ensures
            opt_deref(r) == lookup_in(self@, unit@),
    {
        let u = unit.to_owned();
        let mut best: Option<&Lexeme> = None;
        let mut k: usize = 0;
        while k < self.entries.len()
            invariant
                k <= self.entries@.len(),
                u@ == unit@,
                opt_deref(best) == pick(self.entries@.take(k as int).filter(unit_is(unit@))),
            decreases self.entries@.len() - k,
        {
            let e = &self.entries[k];
            proof {
                assert(self.entries@.take(k + 1) =~= self.entries@.take(k as int).push(*e));
                lemma_filter_push(self.entries@.take(k as int), *e, unit_is(unit@));
            }
            if e.unit == u {
                let ghost prev = self.entries@.take(k as int).filter(unit_is(unit@));
                proof {
                    assert(prev.push(*e).drop_last() =~= prev);
                }
                best = match best {
                    None => Some(e),
                    Some(m) => {
                        let keep = m.frequency_rank > e.frequency_rank || (m.frequency_rank
                            == e.frequency_rank && rank(e.kind) > rank(m.kind));
                        if keep {
                            Some(m)
                        } else {
                            Some(e)
                        }
                    },
                };
            }
            k = k + 1;
        }
        proof {
            assert(self.entries@.take(k as int) =~= self.entries@);
        }
        best
    }

    /// All entries, in file order.
    pub fn lexemes(&self) -> (r: &[Lexeme])
        ensures
            r@ == self@,
    {
        self.entries.as_slice()
    }
}

} // verus!

verus! {

/// Tokens `start..end` joined by spaces.
pub fn join_tokens(tokens: &Vec<String>, start: usize, end: usize) -> (r: String)
    requires
        start < end <= tokens.len(),
    ensures
        r@ == join(views(tokens@).subrange(start as int, end as int), ' '),
{
    let mut s = String::new();
    let mut k = start;
    while k < end
        invariant
            start <= k <= end <= tokens.len(),
            k == start ==> s@ == Seq::<char>::empty(),
            k > start ==> s@ == join(views(tokens@).subrange(start as int, k as int), ' '),
        decreases end - k,
    {
        let ghost before = views(tokens@).subrange(start as int, k as int);
        let ghost after = views(tokens@).subrange(start as int, k + 1);
        proof {
            assert(after.drop_last() =~= before);
            assert(after.last() == tokens@[k as int]@);
        }
        if k > start {
            push_char(&mut s, ' ');
        }
        push_str(&mut s, tokens[k].as_str());
        proof {
            if k == start {
                assert(s@ =~= after[0]);
            } else {
                assert(s@ =~= join(before, ' ').push(' ') + after.last());
            }
        }
        k = k + 1;
    }
    s
}

impl Dict {
    /// A window of tokens as a unit: as it stands first, then with the lemma of its
    /// head (`moved in` gives `move in`, `utilities` gives `utility`). The head is
    /// the first token: it is what inflects; the tail (`in`, `up with`) does not.
    fn match_window(&self, tokens: &Vec<String>, start: usize, len: usize) -> (r: Option<&Lexeme>)
        requires
            0 < len,
            start + len <= tokens.len(),
        ensures
            opt_deref(r) == window_match(self@, views(tokens@).subrange(start as int, start + len)),
    {
        let ghost w = views(tokens@).subrange(start as int, start + len);
        let surface = join_tokens(tokens, start, start + len);
        proof {
            assert(surface@ == join(w, ' '));
        }
        if let Some(l) = self.lookup(surface.as_str()) {
            return Some(l);
        }
        let head = &tokens[start];
        proof {
            assert(w[0] == head@);
        }
        let mut p: u8 = 0;
        while p < 4
            invariant
                p <= 4,
                0 < len,
                start + len <= tokens.len(),
                w == views(tokens@).subrange(start as int, start + len),
                w[0] == head@,
                lookup_in(self@, join(w, ' ')) is None,
                match_lemmas(self@, w, 0) == match_lemmas(self@, w, p as int),
            decreases 4 - p,
        {
            let lemma = lemmatize(&self.lemmatizer, head.as_str(), class_at_step(p));
            if lemma == *head {
                p = p + 1;
            } else {
                let cand = if len == 1 {
                    lemma
                } else {
                    let mut c = lemma;
                    push_char(&mut c, ' ');
                    let tail = join_tokens(tokens, start + 1, start + len);
                    push_str(&mut c, tail.as_str());
                    proof {
                        assert(w.skip(1) =~= views(tokens@).subrange(start + 1, start + len));
                    }
                    c
                };
                proof {
                    assert(cand@ == with_head(w, wordnet_lemma(w[0], class_at(p as int))));
                }
                if let Some(l) = self.lookup(cand.as_str()) {
                    proof {
                        assert(lemma@ != head@);
                        assert(match_lemmas(self@, w, p as int) == Some(*l));
                    }
                    return Some(l);
                }
                p = p + 1;
            }
        }
        None
    }
}

} // verus!

verus! {

/// The longest window, of at most `len` tokens from `i`, that names a unit (its
/// length), or `0` when none does.
pub open spec fn hit_len(d: Seq<Lexeme>, toks: Seq<Seq<char>>, i: int, len: int) -> int
    decreases len,
{
    if len <= 0 {
        0
    } else if window_match(d, toks.subrange(i, i + len)) is Some {
        len
    } else {
        hit_len(d, toks, i, len - 1)
    }
}

/// How many tokens a window from `i` may span.
pub open spec fn window_cap(toks: Seq<Seq<char>>, i: int) -> int {
    if toks.len() - i < MAX_MWE_LEN {
        toks.len() - i
    } else {
        MAX_MWE_LEN as int
    }
}

pub proof fn lemma_hit_len_bounds(d: Seq<Lexeme>, toks: Seq<Seq<char>>, i: int, len: int)
    ensures
        0 <= hit_len(d, toks, i, len),
        hit_len(d, toks, i, len) <= if len < 0 { 0 } else { len },
    decreases len,
{
    if len > 0 {
        lemma_hit_len_bounds(d, toks, i, len - 1);
    }
}

/// The units met reading the tokens greedily from `i`, each with its surface form:
/// at each position the longest window that names a unit wins (`move in` over
/// `move`); a token that starts no unit is skipped.
pub open spec fn scan_hits(d: Seq<Lexeme>, toks: Seq<Seq<char>>, i: int) -> Seq<(Lexeme, Seq<char>)>
    decreases toks.len() - i,
{
    if i < 0 || i >= toks.len() {
        Seq::empty()
    } else {
        let k = hit_len(d, toks, i, window_cap(toks, i));
        proof {
            lemma_hit_len_bounds(d, toks, i, window_cap(toks, i));
        }
        if k > 0 {
            let w = toks.subrange(i, i + k);
            seq![(window_match(d, w).unwrap(), join(w, ' '))] + scan_hits(d, toks, i + k)
        } else {
            scan_hits(d, toks, i + 1)
        }
    }
}

/// The tokens that start no unit, reading greedily from `i`, in order.
pub open spec fn scan_misses(d: Seq<Lexeme>, toks: Seq<Seq<char>>, i: int) -> Seq<Seq<char>>
    decreases toks.len() - i,
{
    if i < 0 || i >= toks.len() {
        Seq::empty()
    } else {
        let k = hit_len(d, toks, i, window_cap(toks, i));
        proof {
            lemma_hit_len_bounds(d, toks, i, window_cap(toks, i));
        }
        if k > 0 {
            scan_misses(d, toks, i + k)
        } else {
            seq![toks[i]] + scan_misses(d, toks, i + 1)
        }
    }
}

pub open spec fn has_id(s: Seq<(Lexeme, Seq<char>)>, id: Seq<char>) -> bool {
    exists|j: int| 0 <= j < s.len() && (#[trigger] s[j]).0.id@ == id
}

/// `s` after `seen`, keeping only the first of the units that share an id.
pub open spec fn first_by_id(s: Seq<(Lexeme, Seq<char>)>, seen: Seq<(Lexeme, Seq<char>)>) -> Seq<(Lexeme, Seq<char>)>
    decreases s.len(),
{
    if s.len() == 0 {
        seen
    } else if has_id(seen, s[0].0.id@) {
        first_by_id(s.skip(1), seen)
    } else {
        first_by_id(s.skip(1), seen.push(s[0]))
    }
}

/// `f` reports unit `h.0` met in the text as `h.1`.
pub open spec fn reports(f: Found, h: (Lexeme, Seq<char>)) -> bool {
    &&& f.id@ == h.0.id@
    &&& f.unit@ == h.0.unit@
    &&& f.kind == h.0.kind
    &&& f.cefr == h.0.cefr
    &&& f.cefr_derived == h.0.cefr_derived
    &&& f.frequency_rank == h.0.frequency_rank
    &&& f.frequency_band == h.0.frequency_band
    &&& f.surface@ == h.1
}

pub open spec fn reports_all(units: Seq<Found>, hs: Seq<(Lexeme, Seq<char>)>) -> bool {
    units.len() == hs.len() && forall|k: int| 0 <= k < units.len() ==> reports(#[trigger] units[k], hs[k])
}

impl Dict {
    /// Analyse a text. Multiword units are matched greedily, longest first: `move in`
    /// must win over `move`, or the phrasal verb falls apart into its words and the
    /// text looks as if it had nothing to teach. Units come in order of first
    /// appearance, one per id; unknown tokens likewise, once each.
    pub fn analyze(&self, text: &str) -> (r: Analysis)
        ensures
            reports_all(r.units@, first_by_id(scan_hits(self@, tokens(text@), 0), seq![])),
            views(r.unknown@) == scan_misses(self@, tokens(text@), 0).remove_duplicates(seq![]),
    {
        let toks = tokenize(text);
        let ghost ts = views(toks@);
        let n = toks.len();
        let mut units: Vec<Found> = Vec::new();
        let mut unknown: Vec<String> = Vec::new();
        let ghost mut gu: Seq<(Lexeme, Seq<char>)> = seq![];
        let mut i: usize = 0;
        proof {
            assert(views(toks@).len() == toks@.len());
            assert(views(unknown@) =~= Seq::<Seq<char>>::empty());
        }
        while i < n
            invariant
                n == toks.len(),
                ts == views(toks@),
                ts == tokens(text@),
                ts.len() == n,
                i <= n,
                reports_all(units@, gu),
                first_by_id(scan_hits(self@, ts, 0), seq![]) == first_by_id(scan_hits(self@, ts, i as int), gu),
                scan_misses(self@, ts, 0).remove_duplicates(seq![]) == scan_misses(self@, ts, i as int).remove_duplicates(views(unknown@)),
            decreases n - i,
        {
            let cap: usize = if n - i < MAX_MWE_LEN { n - i } else { MAX_MWE_LEN };
            let mut len: usize = cap;
            let mut hit: Option<&Lexeme> = None;
            while len > 0
                invariant_except_break
                    hit is None,
                invariant
                    len <= cap,
                    cap == window_cap(ts, i as int),
                    i < n,
                    cap <= n - i,
                    n == toks.len(),
                    ts == views(toks@),
                    hit is None ==> hit_len(self@, ts, i as int, cap as int) == hit_len(self@, ts, i as int, len as int),
                ensures
                    hit is None ==> hit_len(self@, ts, i as int, cap as int) == 0,
                    hit matches Some(l) ==> {
                        &&& 0 < len <= cap
                        &&& hit_len(self@, ts, i as int, cap as int) == len
                        &&& window_match(self@, ts.subrange(i as int, i + len)) == Some(*l)
                    },
                decreases len,
            {
                if let Some(l) = self.match_window(&toks, i, len) {
                    hit = Some(l);
                    break;
                }
                len = len - 1;
            }
            proof {
                lemma_hit_len_bounds(self@, ts, i as int, cap as int);
            }
            match hit {
                Some(lex) => {
                    let surface = join_tokens(&toks, i, i + len);
                    let ghost h = (*lex, surface@);
                    proof {
                        assert(scan_hits(self@, ts, i as int) =~= seq![h] + scan_hits(self@, ts, i + len));
                        assert(scan_misses(self@, ts, i as int) == scan_misses(self@, ts, i + len));
                        assert((seq![h] + scan_hits(self@, ts, i + len)).skip(1) =~= scan_hits(self@, ts, i + len));
                    }
                    let mut seen = false;
                    let mut j: usize = 0;
                    while j < units.len()
                        invariant
                            j <= units@.len(),
                            reports_all(units@, gu),
                            seen == exists|m: int| 0 <= m < j && (#[trigger] units@[m]).id@ == lex.id@,
                        decreases units@.len() - j,
                    {
                        if units[j].id == lex.id {
                            seen = true;
                        }
                        j = j + 1;
                    }
                    proof {
                        if seen {
                            let m = choose|m: int| 0 <= m < j && (#[trigger] units@[m]).id@ == lex.id@;
                            assert(reports(units@[m], gu[m]));
                            assert(has_id(gu, lex.id@));
                        } else {
                            assert forall|m: int| 0 <= m < gu.len() implies (#[trigger] gu[m]).0.id@ != lex.id@ by {
                                assert(reports(units@[m], gu[m]));
                            }
                            assert(!has_id(gu, lex.id@));
                        }
                    }
                    if !seen {
                        let f = Found {
                            id: lex.id.clone(),
                            unit: lex.unit.clone(),
                            kind: lex.kind,
                            cefr: lex.cefr,
                            cefr_derived: lex.cefr_derived,
                            frequency_rank: lex.frequency_rank,
                            frequency_band: lex.frequency_band,
                            surface,
                        };
                        let ghost old_units = units@;
                        let ghost old_gu = gu;
                        units.push(f);
                        proof {
                            gu = gu.push(h);
                            assert(reports(f, h));
                            assert forall|k: int| 0 <= k < units@.len() implies reports(#[trigger] units@[k], gu[k]) by {
                                if k < units@.len() - 1 {
                                    assert(units@[k] == old_units[k]);
                                    assert(gu[k] == old_gu[k]);
                                    assert(reports(old_units[k], old_gu[k]));
                                }
                            }
                        }
                    }
                    i = i + len;
                },
                None => {
                    let w = toks[i].clone();
                    let ghost before = views(unknown@);
                    proof {
                        assert(ts[i as int] == w@);
                        assert(scan_hits(self@, ts, i as int) == scan_hits(self@, ts, i + 1));
                        assert(scan_misses(self@, ts, i as int) =~= seq![w@] + scan_misses(self@, ts, i + 1));
                        assert((seq![w@] + scan_misses(self@, ts, i + 1)).skip(1) =~= scan_misses(self@, ts, i + 1));
                    }
                    let mut seen = false;
                    let mut j: usize = 0;
                    while j < unknown.len()
                        invariant
                            j <= unknown@.len(),
                            seen == exists|m: int| 0 <= m < j && (#[trigger] unknown@[m])@ == w@,
                        decreases unknown@.len() - j,
                    {
                        if unknown[j] == w {
                            seen = true;
                        }
                        j = j + 1;
                    }
                    proof {
                        assert(views(unknown@).len() == unknown@.len());
                        if seen {
                            let m = choose|m: int| 0 <= m < j && (#[trigger] unknown@[m])@ == w@;
                            assert(views(unknown@)[m] == w@);
                            assert(before.contains(w@));
                        } else {
                            assert forall|m: int| 0 <= m < before.len() implies before[m] != w@ by {
                                assert(before[m] == unknown@[m]@);
                            }
                            assert(!before.contains(w@));
                        }
                    }
                    if !seen {
                        unknown.push(w);
                        proof {
                            assert(views(unknown@) =~= before + seq![w@]);
                        }
                    }
                    i = i + 1;
                },
            }
        }
        proof {
            assert(scan_hits(self@, ts, n as int) == Seq::<(Lexeme, Seq<char>)>::empty());
            assert(scan_misses(self@, ts, n as int) == Seq::<Seq<char>>::empty());
        }
        Analysis { units, unknown }
    }
}

} // verus!

verus! {

/// Greedy matching takes the longest unit: when a window of `m` tokens from `i`
/// names a unit, the window taken there is at least `m` tokens long (`move in`
/// wins over `move`).
pub proof fn lemma_longest_window_wins(d: Seq<Lexeme>, toks: Seq<Seq<char>>, i: int, len: int, m: int)
    requires
        0 < m <= len,
        window_match(d, toks.subrange(i, i + m)) is Some,
    ensures
        hit_len(d, toks, i, len) >= m,
    decreases len,
{
    if len > m && window_match(d, toks.subrange(i, i + len)) is None {
        lemma_longest_window_wins(d, toks, i, len - 1, m);
    }
}

/// `a` is not preferred over `b`: `b` is at least as frequent, and as frequent
/// only with a kind at least as preferred.
pub open spec fn at_least_as_preferred(b: Lexeme, a: Lexeme) -> bool {
    !preferred(a, b)
}

/// The reading [`pick`] chooses is one of the readings, and no reading is
/// preferred over it.
pub proof fn lemma_pick_is_best(s: Seq<Lexeme>)
    ensures
        s.len() == 0 ==> pick(s) is None,
        s.len() > 0 ==> (pick(s) matches Some(b) && s.contains(b)
            && forall|k: int| 0 <= k < s.len() ==> at_least_as_preferred(b, #[trigger] s[k])),
    decreases s.len(),
{
    if s.len() > 0 {
        let init = s.drop_last();
        lemma_pick_is_best(init);
        match pick(init) {
            None => {
                assert(s.contains(s.last()));
                assert forall|k: int| 0 <= k < s.len() implies at_least_as_preferred(s.last(), #[trigger] s[k]) by {
                    assert(k == s.len() - 1);
                }
            },
            Some(m) => {
                let j = choose|j: int| 0 <= j < init.len() && init[j] == m;
                assert(s[j] == m);
                if preferred(m, s.last()) {
                    assert forall|k: int| 0 <= k < s.len() implies at_least_as_preferred(m, #[trigger] s[k]) by {
                        if k < s.len() - 1 {
                            assert(s[k] == init[k]);
                        }
                    }
                } else {
                    assert forall|k: int| 0 <= k < s.len() implies at_least_as_preferred(s.last(), #[trigger] s[k]) by {
                        if k < s.len() - 1 {
                            assert(s[k] == init[k]);
                            assert(at_least_as_preferred(m, init[k]));
                        }
                    }
                    assert(s.contains(s.last()));
                }
            },
        }
    }
}

/// Homonyms are told apart by frequency, then kind: the reading the dictionary
/// gives for a form has that form, and no reading of the same form is more
/// frequent, or as frequent with a preferred kind. A form has a reading as
/// soon as some entry has it.
pub proof fn lemma_lookup_prefers_frequent(d: Seq<Lexeme>, unit: Seq<char>)
    ensures
        lookup_in(d, unit) is Some <==> exists|j: int| 0 <= j < d.len() && (#[trigger] d[j]).unit@ == unit,
        lookup_in(d, unit) matches Some(b) ==> b.unit@ == unit && d.contains(b)
            && forall|j: int| 0 <= j < d.len() && (#[trigger] d[j]).unit@ == unit ==> at_least_as_preferred(b, d[j]),
{
    let s = d.filter(unit_is(unit));
    lemma_pick_is_best(s);
    assert forall|j: int| 0 <= j < d.len() && (#[trigger] d[j]).unit@ == unit implies s.contains(d[j]) by {
        d.lemma_filter_contains(unit_is(unit), j);
    }
    if lookup_in(d, unit) is Some {
        let b = lookup_in(d, unit).unwrap();
        assert(s.contains(b));
        let k = choose|k: int| 0 <= k < s.len() && s[k] == b;
        d.lemma_filter_pred(unit_is(unit), k);
        assert(unit_is(unit)(s[k]));
        d.lemma_filter_contains_rev(unit_is(unit), b);
        assert(d.contains(s[k]));
        let j0 = choose|j: int| 0 <= j < d.len() && d[j] == b;
        assert(d[j0].unit@ == unit);
        assert forall|j: int| 0 <= j < d.len() && (#[trigger] d[j]).unit@ == unit implies at_least_as_preferred(b, d[j]) by {
            assert(s.contains(d[j]));
            let m = choose|m: int| 0 <= m < s.len() && s[m] == d[j];
            assert(at_least_as_preferred(b, s[m]));
        }
    } else {
        assert(s.len() == 0);
        assert forall|j: int| 0 <= j < d.len() implies (#[trigger] d[j]).unit@ != unit by {
            if d[j].unit@ == unit {
                assert(s.contains(d[j]));
            }
        }
    }
}

pub open spec fn ids_distinct(s: Seq<(Lexeme, Seq<char>)>) -> bool {
    forall|a: int, b: int| 0 <= a < b < s.len() ==> (#[trigger] s[a]).0.id@ != (#[trigger] s[b]).0.id@
}

/// Keeping the first unit of each id gives distinct ids and loses no id.
pub proof fn lemma_first_by_id_distinct(s: Seq<(Lexeme, Seq<char>)>, seen: Seq<(Lexeme, Seq<char>)>)
    requires
        ids_distinct(seen),
    ensures
        ids_distinct(first_by_id(s, seen)),
        forall|id: Seq<char>| has_id(first_by_id(s, seen), id) <==> has_id(seen, id) || has_id(s, id),
    decreases s.len(),
{
    if s.len() > 0 {
        let rest = s.skip(1);
        let next = if has_id(seen, s[0].0.id@) { seen } else { seen.push(s[0]) };
        if !has_id(seen, s[0].0.id@) {
            assert forall|a: int, b: int| 0 <= a < b < next.len() implies (#[trigger] next[a]).0.id@ != (#[trigger] next[b]).0.id@ by {
                if b == seen.len() {
                    assert(next[a] == seen[a]);
                } else {
                    assert(next[a] == seen[a]);
                    assert(next[b] == seen[b]);
                }
            }
        }
        lemma_first_by_id_distinct(rest, next);
        assert forall|id: Seq<char>| has_id(first_by_id(s, seen), id) <==> has_id(seen, id) || has_id(s, id) by {
            if has_id(next, id) {
                let j = choose|j: int| 0 <= j < next.len() && (#[trigger] next[j]).0.id@ == id;
                if j < seen.len() {
                    assert(next[j] == seen[j]);
                } else {
                    assert(s[0].0.id@ == id);
                }
            }
            if has_id(s, id) {
                let j = choose|j: int| 0 <= j < s.len() && (#[trigger] s[j]).0.id@ == id;
                if j > 0 {
                    assert(rest[j - 1] == s[j]);
                } else if !has_id(seen, id) {
                    assert(next[seen.len() as int] == s[0]);
                }
            }
            if has_id(rest, id) {
                let j = choose|j: int| 0 <= j < rest.len() && (#[trigger] rest[j]).0.id@ == id;
                assert(s[j + 1] == rest[j]);
            }
            if has_id(seen, id) {
                let j = choose|j: int| 0 <= j < seen.len() && (#[trigger] seen[j]).0.id@ == id;
                assert(next[j] == seen[j]);
            }
        }
    }
}

pub proof fn lemma_remove_duplicates_distinct(s: Seq<Seq<char>>, seen: Seq<Seq<char>>)
    requires
        seen.no_duplicates(),
    ensures
        s.remove_duplicates(seen).no_duplicates(),
        forall|w: Seq<char>| s.remove_duplicates(seen).contains(w) <==> seen.contains(w) || s.contains(w),
    decreases s.len(),
{
    if s.len() > 0 {
        let rest = s.skip(1);
        if seen.contains(s[0]) {
            lemma_remove_duplicates_distinct(rest, seen);
        } else {
            let next = seen + seq![s[0]];
            assert forall|a: int, b: int| 0 <= a < next.len() && 0 <= b < next.len() && a != b implies next[a] != next[b] by {
                if a < seen.len() && b < seen.len() {
                } else if a < seen.len() {
                    assert(seen.contains(next[a]));
                } else if b < seen.len() {
                    assert(seen.contains(next[b]));
                }
            }
            lemma_remove_duplicates_distinct(rest, next);
        }
        assert forall|w: Seq<char>| s.remove_duplicates(seen).contains(w) <==> seen.contains(w) || s.contains(w) by {
            if rest.contains(w) {
                let j = choose|j: int| 0 <= j < rest.len() && rest[j] == w;
                assert(s[j + 1] == w);
            }
            if s.contains(w) {
                let j = choose|j: int| 0 <= j < s.len() && s[j] == w;
                if j > 0 {
                    assert(rest[j - 1] == w);
                }
            }
            if !seen.contains(s[0]) {
                let next = seen + seq![s[0]];
                if next.contains(w) {
                    let j = choose|j: int| 0 <= j < next.len() && next[j] == w;
                    if j < seen.len() {
                        assert(seen[j] == w);
                    }
                }
                if seen.contains(w) {
                    let j = choose|j: int| 0 <= j < seen.len() && seen[j] == w;
                    assert(next[j] == w);
                }
                if w == s[0] {
                    assert(next[seen.len() as int] == w);
                }
            }
        }
    }
}

/// What an analysis reports: each unit once (ids distinct), every unit met in
/// the text among them, and each unknown word once, every one of them there.
pub proof fn lemma_analysis_complete_without_repeats(d: Seq<Lexeme>, text: Seq<char>)
    ensures
        ids_distinct(first_by_id(scan_hits(d, tokens(text), 0), seq![])),
        forall|k: int| 0 <= k < scan_hits(d, tokens(text), 0).len() ==> has_id(
            first_by_id(scan_hits(d, tokens(text), 0), seq![]),
            (#[trigger] scan_hits(d, tokens(text), 0)[k]).0.id@,
        ),
        scan_misses(d, tokens(text), 0).remove_duplicates(seq![]).no_duplicates(),
        forall|w: Seq<char>| scan_misses(d, tokens(text), 0).contains(w)
            ==> #[trigger] scan_misses(d, tokens(text), 0).remove_duplicates(seq![]).contains(w),
{
    let hits = scan_hits(d, tokens(text), 0);
    lemma_first_by_id_distinct(hits, seq![]);
    assert forall|k: int| 0 <= k < hits.len() implies has_id(first_by_id(hits, seq![]), (#[trigger] hits[k]).0.id@) by {
        assert(has_id(hits, hits[k].0.id@));
    }
    lemma_remove_duplicates_distinct(scan_misses(d, tokens(text), 0), seq![]);
}

/// Function words do not drive difficulty: a unit that is not a content unit
/// leaves the levels the difficulty is computed from as they were.
pub proof fn lemma_function_units_ignored(units: Seq<Found>, u: Found)
    requires
        !is_content_id(u.id@),
    ensures
        content_levels(units.push(u)) == content_levels(units),
{
    lemma_filter_push(units, u, content_unit());
}

/// How many of `ls` are at level `c` exactly: the count below `c + 1` less
/// the count below `c`. When some are, one of `ls` is at that level.
pub proof fn lemma_level_present(ls: Seq<Cefr>, c: int)
    requires
        count_below(ls, c) < count_below(ls, c + 1),
    ensures
        exists|k: int| 0 <= k < ls.len() && (#[trigger] ls[k]).ord() == c,
    decreases ls.len(),
{
    reveal(Seq::filter);
    if ls.len() == 0 {
        assert(false);
    } else {
        let init = ls.drop_last();
        assert(ls.filter(below_level(c)) == if below_level(c)(ls.last()) {
            init.filter(below_level(c)).push(ls.last())
        } else {
            init.filter(below_level(c))
        });
        if ls.last().ord() == c {
            assert(ls[ls.len() - 1].ord() == c);
        } else {
            lemma_level_present(init, c);
            let k = choose|k: int| 0 <= k < init.len() && (#[trigger] init[k]).ord() == c;
            assert(ls[k] == init[k]);
        }
    }
}

/// The difficulty of a text is the level of one of its content units.
pub proof fn lemma_difficulty_is_a_unit_level(a: Analysis, c: Cefr)
    requires
        ({
            let ls = content_levels(a.units@);
            let idx = percentile_90_index(ls.len() as int);
            count_below(ls, c.ord()) <= idx < count_below(ls, c.ord() + 1)
        }),
    ensures
        exists|k: int| 0 <= k < content_levels(a.units@).len() && (#[trigger] content_levels(a.units@)[k]) == c,
{
    let ls = content_levels(a.units@);
    lemma_level_present(ls, c.ord());
    let k = choose|k: int| 0 <= k < ls.len() && (#[trigger] ls[k]).ord() == c.ord();
    assert(ls[k] == c);
}

/// Articles, prepositions, pronouns, conjunctions and numerals are function
/// words, every other part of speech a content word. For a unit whose id is
/// `head|pos` (`w:two|num`): it counts towards difficulty exactly when `pos` is
/// none of `det`, `prep`, `pron`, `conj`, `num`, and a function word added to
/// an analysis leaves the levels difficulty is computed from as they were.
pub proof fn lemma_content_by_part_of_speech(units: Seq<Found>, u: Found, head: Seq<char>, pos: Seq<char>)
    requires
        no_char(head, '|'),
        no_char(pos, '|'),
        u.id@ == head.push('|') + pos,
    ensures
        is_content_id(u.id@) <==> !(pos == seq!['d', 'e', 't'] || pos == seq!['p', 'r', 'e', 'p']
            || pos == seq!['p', 'r', 'o', 'n'] || pos == seq!['c', 'o', 'n', 'j'] || pos == seq!['n', 'u', 'm']),
        !is_content_id(u.id@) ==> content_levels(units.push(u)) == content_levels(units),
        is_content_id(u.id@) ==> content_levels(units.push(u)) == content_levels(units).push(u.cefr),
{
    lemma_fields_concat(head, '|', pos, char_is('|'));
    lemma_fields_of_plain(head, char_is('|'));
    lemma_fields_of_plain(pos, char_is('|'));
    assert(fields(u.id@, char_is('|')) =~= seq![head, pos]);
    assert(pos_field(u.id@) == pos);
    lemma_filter_push(units, u, content_unit());
    if is_content_id(u.id@) {
        assert(units.filter(content_unit()).push(u).map_values(|f: Found| f.cefr)
            =~= units.filter(content_unit()).map_values(|f: Found| f.cefr).push(u.cefr));
    }
}

/// Readings of equal frequency are told apart by kind alone, word before
/// phrasal verb before idiom, whatever their order in the dictionary: the
/// reading a form gets is of the highest frequency among the readings of that
/// form, and of the first kind in that order among those as frequent.
pub proof fn lemma_lookup_breaks_ties_by_kind(d: Seq<Lexeme>, unit: Seq<char>)
    ensures
        lookup_in(d, unit) matches Some(b) ==> forall|j: int| 0 <= j < d.len() && (#[trigger] d[j]).unit@ == unit ==> {
            &&& d[j].frequency_rank <= b.frequency_rank
            &&& d[j].frequency_rank == b.frequency_rank ==> (b.kind == Kind::Word
                || (b.kind == Kind::PhrasalVerb && d[j].kind != Kind::Word)
                || d[j].kind == Kind::Idiom)
        },
{
    lemma_lookup_prefers_frequent(d, unit);
    if let Some(b) = lookup_in(d, unit) {
        assert forall|j: int| 0 <= j < d.len() && (#[trigger] d[j]).unit@ == unit implies {
            &&& d[j].frequency_rank <= b.frequency_rank
            &&& d[j].frequency_rank == b.frequency_rank ==> (b.kind == Kind::Word
                || (b.kind == Kind::PhrasalVerb && d[j].kind != Kind::Word)
                || d[j].kind == Kind::Idiom)
        } by {
            assert(at_least_as_preferred(b, d[j]));
        }
    }
}

/// The kind column of the lexicon: a line of seven tab-free fields whose
/// fifth is a CEFR band is an entry, and its kind is `Idiom` exactly when the
/// third field is `idiom`, `PhrasalVerb` exactly when it is `phrasal_verb`,
/// and `Word` otherwise; its id, form and level are the first, second and
/// fifth fields.
pub proof fn lemma_kind_column(fs: Seq<Seq<char>>, row: LexiconRow)
    requires
        fs.len() == 7,
        forall|k: int| 0 <= k < 7 ==> no_char(#[trigger] fs[k], '\t'),
        exists|c: Cefr| c.name() == fs[4],
    ensures
        entry_line(join(fs, '\t')),
        row_of(join(fs, '\t'), row) ==> {
            &&& (row.kind == Kind::Idiom <==> fs[2] == seq!['i', 'd', 'i', 'o', 'm'])
            &&& (row.kind == Kind::PhrasalVerb <==> fs[2] == seq!['p', 'h', 'r', 'a', 's', 'a', 'l', '_', 'v', 'e', 'r', 'b'])
            &&& (row.kind == Kind::Word <==> fs[2] != seq!['i', 'd', 'i', 'o', 'm']
                && fs[2] != seq!['p', 'h', 'r', 'a', 's', 'a', 'l', '_', 'v', 'e', 'r', 'b'])
            &&& row.id@ == fs[0]
            &&& row.unit@ == fs[1]
            &&& row.cefr.name() == fs[4]
        },
{
    lemma_fields_of_join(fs, '\t');
    assert(tab_fields(join(fs, '\t')) == fs);
    let ph = seq!['p', 'h', 'r', 'a', 's', 'a', 'l', '_', 'v', 'e', 'r', 'b'];
    let id = seq!['i', 'd', 'i', 'o', 'm'];
    assert(ph != id) by {
        assert(ph.len() != id.len());
    }
}

} // verus!
