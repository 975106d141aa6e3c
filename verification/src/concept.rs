//! Concepts: the ability to express a meaning, not the knowledge of a word.
//!
//! Evidence is kept per meaning; realizations are interchangeable ways to say
//! it. Knowing the parts of a collocation says nothing about the collocation,
//! so a collocation is a concept of its own. Groups pool evidence across
//! concepts that share a level, a kind, a frequency band or a word family.
use vstd::prelude::*;

use crate::lex::{Cefr, Kind, Lexeme};
use crate::text::{
    decimal, insert_sorted_distinct, lemma_push_to_set, push_decimal, push_str, split_ws, strictly_sorted,
    to_lowercase, unicode_lowercase, views, ws_words,
};

verus! {

/// Stable identifier of a concept. Learner state refers to concepts by id
/// alone, so ids must not drift between catalog versions.
#[derive(Debug, Clone, PartialEq, Eq, PartialOrd, Ord, Hash)]
pub struct ConceptId(pub String);

impl ConceptId {
    /// The id as a string slice, to look it up without cloning.
    pub fn as_str(&self) -> (r: &str)
        ensures
            r@ == self.0@,
    {
        self.0.as_str()
    }
}

impl From<&str> for ConceptId {
    fn from(s: &str) -> (r: ConceptId)
        ensures
            r.0@ == s@,
    {
        ConceptId(s.to_owned())
    }
}

impl vstd::std_specs::convert::FromSpecImpl<&str> for ConceptId {
    open spec fn obeys_from_spec() -> bool {
        false
    }

    open spec fn from_spec(v: &str) -> ConceptId {
        ConceptId(choose|s: String| s@ == v@)
    }
}

impl From<String> for ConceptId {
    fn from(s: String) -> (r: ConceptId)
        ensures
            r.0 == s,
    {
        ConceptId(s)
    }
}

impl vstd::std_specs::convert::FromSpecImpl<String> for ConceptId {
    open spec fn obeys_from_spec() -> bool {
        true
    }

    open spec fn from_spec(v: String) -> ConceptId {
        ConceptId(v)
    }
}

/// Kind of lexical unit. Extends the dictionary's kinds with what it does not
/// mark (collocations, set phrases) and with `Family`, a pooling node.
#[derive(Debug, Clone, Copy, PartialEq, Eq, PartialOrd, Ord, Hash, Structural)]
pub enum ConceptKind {
    /// A single lemma in a given sense.
    Lemma,
    /// A set phrase reproduced whole (`as far as I know`).
    Phrase,
    /// Free in meaning, not in word choice (`make a decision`).
    Collocation,
    /// A phrasal verb (`turn down`).
    PhrasalVerb,
    /// An idiom whose meaning does not follow from its parts.
    Idiom,
    /// A word family or other pooling group; a fallback level, not a target.
    Family,
}

impl ConceptKind {
    pub open spec fn name(self) -> Seq<char> {
        match self {
            ConceptKind::Lemma => seq!['l', 'e', 'm', 'm', 'a'],
            ConceptKind::Phrase => seq!['p', 'h', 'r', 'a', 's', 'e'],
            ConceptKind::Collocation => seq!['c', 'o', 'l', 'l', 'o', 'c', 'a', 't', 'i', 'o', 'n'],
            ConceptKind::PhrasalVerb => seq!['p', 'h', 'r', 'a', 's', 'a', 'l', '_', 'v', 'e', 'r', 'b'],
            ConceptKind::Idiom => seq!['i', 'd', 'i', 'o', 'm'],
            ConceptKind::Family => seq!['f', 'a', 'm', 'i', 'l', 'y'],
        }
    }

    pub open spec fn multiword(self) -> bool {
        self is Phrase || self is Collocation || self is PhrasalVerb || self is Idiom
    }

    pub open spec fn of_lex(kind: Kind) -> ConceptKind {
        match kind {
            Kind::Word => ConceptKind::Lemma,
            Kind::PhrasalVerb => ConceptKind::PhrasalVerb,
            Kind::Idiom => ConceptKind::Idiom,
        }
    }

    /// The name used in group keys and reports.
    pub fn as_str(self) -> (r: &'static str)
        ensures
            r@ == self.name(),
    {
        proof {
            reveal_strlit("lemma");
            reveal_strlit("phrase");
            reveal_strlit("collocation");
            reveal_strlit("phrasal_verb");
            reveal_strlit("idiom");
            reveal_strlit("family");
        }
        match self {
            ConceptKind::Lemma => "lemma",
            ConceptKind::Phrase => "phrase",
            ConceptKind::Collocation => "collocation",
            ConceptKind::PhrasalVerb => "phrasal_verb",
            ConceptKind::Idiom => "idiom",
            ConceptKind::Family => "family",
        }
    }

    /// A multiword unit: it cannot be assembled from known words, so it is
    /// counted apart in the features of a text.
    pub fn is_multiword(self) -> (r: bool)
        ensures
            r == self.multiword(),
    {
        match self {
            ConceptKind::Phrase | ConceptKind::Collocation | ConceptKind::PhrasalVerb
            | ConceptKind::Idiom => true,
            ConceptKind::Lemma | ConceptKind::Family => false,
        }
    }

    /// The kind that a dictionary kind stands for.
    pub fn from_lex(kind: Kind) -> (r: ConceptKind)
        ensures
            r == ConceptKind::of_lex(kind),
    {
        match kind {
            Kind::Word => ConceptKind::Lemma,
            Kind::PhrasalVerb => ConceptKind::PhrasalVerb,
            Kind::Idiom => ConceptKind::Idiom,
        }
    }
}

/// The key of the group of a kind: `kind:collocation`.
pub open spec fn kind_key(kind: ConceptKind) -> Seq<char> {
    seq!['k', 'i', 'n', 'd', ':'] + kind.name()
}

/// The key of the group of a level: `cefr:B2`.
pub open spec fn cefr_key(cefr: Cefr) -> Seq<char> {
    seq!['c', 'e', 'f', 'r', ':'] + cefr.name()
}

/// The key of a frequency band: `zipf:4`.
pub open spec fn band_key(band: int) -> Seq<char> {
    seq!['z', 'i', 'p', 'f', ':'] + decimal(band)
}

/// The key of a word family or other catalog category: `family:develop`.
pub open spec fn family_key(name: Seq<char>) -> Seq<char> {
    seq!['f', 'a', 'm', 'i', 'l', 'y', ':'] + name
}

/// Identifier of a group in which evidence is pooled for fallback. Groups are
/// strings with a prefix naming their dimension, so that new dimensions do not
/// break stored state.
#[derive(Debug, Clone, PartialEq, Eq, PartialOrd, Ord, Hash)]
pub struct GroupId(pub String);

impl GroupId {
    pub open spec fn key(&self) -> Seq<char> {
        self.0@
    }

    /// The group of a kind of vocabulary: `kind:collocation`.
    pub fn kind(kind: ConceptKind) -> (r: GroupId)
        ensures
            r.key() == kind_key(kind),
    {
        proof {
            reveal_strlit("kind:");
        }
        let mut s = "kind:".to_owned();
        push_str(&mut s, kind.as_str());
        GroupId(s)
    }

    /// The group of a level: `cefr:B2`.
    pub fn cefr(cefr: Cefr) -> (r: GroupId)
        ensures
            r.key() == cefr_key(cefr),
    {
        proof {
            reveal_strlit("cefr:");
        }
        let mut s = "cefr:".to_owned();
        push_str(&mut s, cefr.as_str());
        GroupId(s)
    }

    /// The group of a frequency band, named by the whole part of the zipf
    /// frequency: `zipf:4`.
    pub fn frequency_band(band: i32) -> (r: GroupId)
        ensures
            r.key() == band_key(band as int),
    {
        proof {
            reveal_strlit("zipf:");
        }
        let mut s = "zipf:".to_owned();
        push_decimal(&mut s, band);
        GroupId(s)
    }

    /// A word family or any other catalog category: `family:develop`.
    pub fn family(name: &str) -> (r: GroupId)
        ensures
            r.key() == family_key(name@),
    {
        proof {
            reveal_strlit("family:");
        }
        let mut s = "family:".to_owned();
        push_str(&mut s, name);
        GroupId(s)
    }

    pub fn as_str(&self) -> (r: &str)
        ensures
            r@ == self.key(),
    {
        self.0.as_str()
    }
}

pub open spec fn group_keys(gs: Seq<GroupId>) -> Seq<Seq<char>> {
    gs.map_values(|g: GroupId| g.key())
}

/// The Snowball English (Porter 2) stem of a word.
pub uninterp spec fn english_stem(word: Seq<char>) -> Seq<char>;

/// Calls `Stemmer::create(Algorithm::English)` and `Stemmer::stem` on it: the
/// Snowball English stem of `word`, which depends on the word alone.
#[verifier::external_body]
fn stem_english(word: &str) -> (r: String)
    ensures
        r@ == english_stem(word@),
{
    rust_stemmers::Stemmer::create(rust_stemmers::Algorithm::English).stem(word).into_owned()
}

/// The first whitespace-separated word of a unit, its head: `move` in `move in`.
pub open spec fn head_word(unit: Seq<char>) -> Option<Seq<char>> {
    let ws = ws_words(unit);
    if ws.len() > 0 {
        Some(ws[0])
    } else {
        None
    }
}

/// The keys of the groups a dictionary unit belongs to, with repeats: its level,
/// its kind, its frequency band when it has a frequency, and the family of the
/// stem of its lowercased head when that stem is not empty.
pub open spec fn derived_keys(l: Lexeme) -> Seq<Seq<char>> {
    let base = seq![cefr_key(l.cefr), kind_key(ConceptKind::of_lex(l.kind))];
    let with_band = match l.frequency_band {
        Some(b) => base.push(band_key(b as int)),
        None => base,
    };
    match head_word(l.unit@) {
        Some(h) => {
            let st = english_stem(unicode_lowercase(h));
            if st.len() > 0 {
                with_band.push(family_key(st))
            } else {
                with_band
            }
        },
        None => with_band,
    }
}

/// Keep `keys` as the strictly sorted list of `g`'s key and what it held.
fn add_key(keys: &mut Vec<String>, g: GroupId)
    requires
        strictly_sorted(views(old(keys)@)),
    ensures
        strictly_sorted(views(final(keys)@)),
        views(final(keys)@).to_set() == views(old(keys)@).to_set().insert(g.key()),
{
    let GroupId(s) = g;
    insert_sorted_distinct(keys, s);
}

fn into_groups(keys: Vec<String>) -> (r: Vec<GroupId>)
    ensures
        group_keys(r@) == views(keys@),
{
    let mut out: Vec<GroupId> = Vec::new();
    for i in 0..keys.len()
        invariant
            group_keys(out@) == views(keys@).take(i as int),
    {
        let ghost prev = group_keys(out@);
        out.push(GroupId(keys[i].clone()));
        proof {
            assert(group_keys(out@) =~= prev.push(keys@[i as int]@));
            assert(views(keys@).take(i + 1) =~= views(keys@).take(i as int).push(keys@[i as int]@));
        }
    }
    proof {
        assert(views(keys@).take(keys.len() as int) =~= views(keys@));
    }
    out
}

/// The groups derived from a dictionary unit: its level, its kind, its
/// frequency band (when it has a frequency) and its word family, the stem of
/// its head (`move in` lives in the family of `move`). Sorted, without repeats:
/// the order decides which aggregates are updated, so it must be stable.
///
/// The stemmer cuts suffixes, not meanings: it joins `develop`, `developer` and
/// `development` but not `decide` and `decision`, so families transfer
/// knowledge only in part.
pub fn derived_groups(lexeme: &Lexeme) -> (r: Vec<GroupId>)
    ensures
        strictly_sorted(group_keys(r@)),
        group_keys(r@).to_set() == derived_keys(*lexeme).to_set(),
{
    let mut keys: Vec<String> = Vec::new();
    let ghost mut want: Seq<Seq<char>> = seq![];
    add_key(&mut keys, GroupId::cefr(lexeme.cefr));
    proof {
        lemma_push_to_set(want, cefr_key(lexeme.cefr));
        want = want.push(cefr_key(lexeme.cefr));
        assert(views(keys@).to_set() =~= want.to_set());
    }
    add_key(&mut keys, GroupId::kind(ConceptKind::from_lex(lexeme.kind)));
    proof {
        lemma_push_to_set(want, kind_key(ConceptKind::of_lex(lexeme.kind)));
        want = want.push(kind_key(ConceptKind::of_lex(lexeme.kind)));
        assert(views(keys@).to_set() =~= want.to_set());
    }
    if let Some(b) = lexeme.frequency_band {
        add_key(&mut keys, GroupId::frequency_band(b));
        proof {
            lemma_push_to_set(want, band_key(b as int));
            want = want.push(band_key(b as int));
            assert(views(keys@).to_set() =~= want.to_set());
        }
    }
    let words = split_ws(lexeme.unit.as_str());
    if words.len() > 0 {
        let lowered = to_lowercase(words[0].as_str());
        let stem = stem_english(lowered.as_str());
        proof {
            assert(views(words@)[0] == words@[0]@);
        }
        if !stem.as_str().is_empty() {
            add_key(&mut keys, GroupId::family(stem.as_str()));
            proof {
                lemma_push_to_set(want, family_key(stem@));
                want = want.push(family_key(stem@));
                assert(views(keys@).to_set() =~= want.to_set());
            }
        }
    }
    proof {
        assert(views(words@).len() == words@.len());
        assert(want =~= derived_keys(*lexeme));
    }
    into_groups(keys)
}

/// The groups an observation of a concept goes to: the catalog's own plus
/// those of its kind and (when known) its level. Sorted, without repeats.
pub fn effective_groups(group_ids: &[GroupId], kind: ConceptKind, cefr: Option<Cefr>) -> (r: Vec<GroupId>)
    ensures
        strictly_sorted(group_keys(r@)),
        group_keys(r@).to_set() == ({
            let base = group_keys(group_ids@).push(kind_key(kind));
            match cefr {
                Some(c) => base.push(cefr_key(c)),
                None => base,
            }
        }).to_set(),
{
    let mut keys: Vec<String> = Vec::new();
    let mut i: usize = 0;
    while i < group_ids.len()
        invariant
            i <= group_ids@.len(),
            strictly_sorted(views(keys@)),
            views(keys@).to_set() == group_keys(group_ids@).take(i as int).to_set(),
        decreases group_ids@.len() - i,
    {
        let g = GroupId(group_ids[i].0.clone());
        proof {
            assert(group_keys(group_ids@).take(i + 1) =~= group_keys(group_ids@).take(i as int).push(g.key()));
            lemma_push_to_set(group_keys(group_ids@).take(i as int), g.key());
        }
        add_key(&mut keys, g);
        proof {
            assert(views(keys@).to_set() =~= group_keys(group_ids@).take(i + 1).to_set());
        }
        i = i + 1;
    }
    let ghost mut want = group_keys(group_ids@);
    proof {
        assert(group_keys(group_ids@).take(i as int) =~= want);
    }
    add_key(&mut keys, GroupId::kind(kind));
    proof {
        lemma_push_to_set(want, kind_key(kind));
        want = want.push(kind_key(kind));
        assert(views(keys@).to_set() =~= want.to_set());
    }
    if let Some(c) = cefr {
        add_key(&mut keys, GroupId::cefr(c));
        proof {
            lemma_push_to_set(want, cefr_key(c));
            want = want.push(cefr_key(c));
            assert(views(keys@).to_set() =~= want.to_set());
        }
    }
    into_groups(keys)
}

/// An acceptable realization of a concept: one concrete English way to say it.
#[derive(Debug, Clone, PartialEq, Eq)]
pub struct Realization {
    /// Canonical form: `make a decision`, `turn down`.
    pub text: String,
    /// The id of the dictionary unit it stands for, if the dictionary has one
    /// (collocations live only in the catalog).
    pub lexeme_id: Option<String>,
}

impl Realization {
    /// A realization not tied to the dictionary.
    pub fn new(text: &str) -> (r: Realization)
        ensures
            r.text@ == text@,
            r.lexeme_id is None,
    {
        Realization { text: text.to_owned(), lexeme_id: None }
    }

    /// A realization tied to a dictionary unit.
    pub fn from_lexeme(text: &str, lexeme_id: &str) -> (r: Realization)
        ensures
            r.text@ == text@,
            r.lexeme_id matches Some(id) && id@ == lexeme_id@,
    {
        Realization { text: text.to_owned(), lexeme_id: Some(lexeme_id.to_owned()) }
    }
}

} // verus!

verus! {

pub open spec fn starts_with(s: Seq<char>, p: Seq<char>) -> bool {
    s.len() >= p.len() && s.take(p.len() as int) == p
}

/// A unit gets a frequency band exactly when it has a frequency: a unit absent
/// from the frequency list ("no data", not "very rare") joins no `zipf:` group.
pub proof fn lemma_band_iff_frequency(l: Lexeme)
    ensures
        (exists|k: int| 0 <= k < derived_keys(l).len()
            && starts_with(#[trigger] derived_keys(l)[k], seq!['z', 'i', 'p', 'f', ':'])) <==> l.frequency_band is Some,
{
    let ks = derived_keys(l);
    let z = seq!['z', 'i', 'p', 'f', ':'];
    assert forall|k: int| 0 <= k < ks.len() && starts_with(#[trigger] ks[k], z) implies l.frequency_band is Some by {
        assert(ks[k][0] == z[0]);
        if l.frequency_band is None {
            assert(ks[k][0] != 'z');
        }
    }
    if let Some(b) = l.frequency_band {
        assert(ks[2] == band_key(b as int));
        assert(band_key(b as int).take(5) =~= z);
        assert(starts_with(ks[2], z));
    }
}

/// A multiword unit joins the family of its head: two units with the same
/// head are in the same `family:` groups (`move in` lives with `move`).
pub proof fn lemma_family_follows_head(a: Lexeme, b: Lexeme)
    requires
        head_word(a.unit@) == head_word(b.unit@),
    ensures
        forall|x: Seq<char>| starts_with(x, seq!['f', 'a', 'm', 'i', 'l', 'y', ':']) ==>
            (derived_keys(a).contains(x) <==> derived_keys(b).contains(x)),
{
    let f = seq!['f', 'a', 'm', 'i', 'l', 'y', ':'];
    assert forall|x: Seq<char>| starts_with(x, f) implies (derived_keys(a).contains(x) <==> derived_keys(b).contains(x)) by {
        assert(x[0] == 'f');
        lemma_only_family_keys(a, x);
        lemma_only_family_keys(b, x);
    }
}

/// The only key of a unit that starts with `f` is its family's.
proof fn lemma_only_family_keys(l: Lexeme, x: Seq<char>)
    requires
        x.len() > 0,
        x[0] == 'f',
    ensures
        derived_keys(l).contains(x) <==> (head_word(l.unit@) matches Some(h)
            && english_stem(unicode_lowercase(h)).len() > 0
            && x == family_key(english_stem(unicode_lowercase(h)))),
{
    let ks = derived_keys(l);
    if ks.contains(x) {
        let k = choose|k: int| 0 <= k < ks.len() && ks[k] == x;
        assert(ks[k][0] == 'f');
    }
    if let Some(h) = head_word(l.unit@) {
        let st = english_stem(unicode_lowercase(h));
        if st.len() > 0 && x == family_key(st) {
            assert(ks[ks.len() - 1] == x);
        }
    }
}

} // verus!
