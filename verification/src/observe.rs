//! An attempt of the learner against the concepts a text requires.
//!
//! Avoiding a unit is not always a failure: a learner who does not say the
//! exact unit but gets the meaning across has made a workaround, the top of the
//! ladder; one who does not get it across has skipped it. What tells them apart
//! is whether the analysis of the attempt found a breakdown. This module does
//! not judge meaning itself: it only answers whether a form was said.
use vstd::prelude::*;

use crate::concept::{ConceptId, Realization};
use crate::lex::{
    first_by_id, is_content_id, join_tokens, reports, scan_hits, tokenize, tokens, Dict, Lexeme,
};
use crate::text::{contains_str, contains_string, contains_sub, join, push_char, push_str, str_eq, trim, trim_str, views};

verus! {

/// How much harm a mistake did, the ordinal scale of the attempt analysis.
#[derive(Debug, Clone, Copy, PartialEq, Eq, PartialOrd, Ord, Hash, Structural)]
pub enum Impact {
    /// A mistake that did no harm.
    NoHarm,
    MinorNoise,
    Distortion,
    Breakdown,
}

/// A correction from the analysis of an attempt: what was said wrong, and how
/// much it hurt.
#[derive(Debug, Clone, PartialEq)]
pub struct Correction<'a> {
    /// The unit the correction is about, when the analysis named it.
    pub item: Option<&'a str>,
    /// The reference wording.
    pub correct: &'a str,
    pub impact: Impact,
}

/// Why a concept was not expressed as required.
#[derive(Debug, Clone, Copy, PartialEq, Eq, Hash, Structural)]
pub enum LexicalErrorKind {
    /// Did not say the unit, but got the meaning across: not an error.
    Workaround,
    /// Did not say it and did not get the meaning across.
    Skipped,
    /// Said the wrong thing: chose a wrong realization.
    WrongChoice,
    /// Said the right unit in a wrong form or combination.
    WrongForm,
}

/// What the learner did with a required concept.
#[derive(Debug, Clone, PartialEq)]
pub enum Use {
    /// Expressed: one of the acceptable realizations is in the speech.
    Expressed { realization: String },
    /// Tried and missed: the analysis corrects this very concept.
    WrongChoice {
        impact: Impact,
        /// Index of that correction among the attempt's corrections.
        correction_index: usize,
    },
    /// Did not say the unit but got the meaning across.
    Workaround,
    /// Did not say it and did not get the meaning across.
    Skipped,
}

impl Use {
    pub open spec fn error_of(self) -> Option<LexicalErrorKind> {
        match self {
            Use::Expressed { .. } => None,
            Use::WrongChoice { .. } => Some(LexicalErrorKind::WrongChoice),
            Use::Workaround => Some(LexicalErrorKind::Workaround),
            Use::Skipped => Some(LexicalErrorKind::Skipped),
        }
    }

    /// The error an observation of this use records: none when expressed.
    pub fn error_kind(&self) -> (r: Option<LexicalErrorKind>)
        ensures
            r == self.error_of(),
    {
        match self {
            Use::Expressed { .. } => None,
            Use::WrongChoice { .. } => Some(LexicalErrorKind::WrongChoice),
            Use::Workaround => Some(LexicalErrorKind::Workaround),
            Use::Skipped => Some(LexicalErrorKind::Skipped),
        }
    }
}

/// The meaning got across: no correction of the attempt is a breakdown.
pub open spec fn conveyed(cs: Seq<Correction>) -> bool {
    forall|i: int| 0 <= i < cs.len() ==> (#[trigger] cs[i]).impact != Impact::Breakdown
}

/// Whether the learner got the meaning across at all. The proxy is the absence
/// of a breakdown in the analysis, over the whole attempt.
pub fn meaning_conveyed(corrections: &[Correction]) -> (r: bool)
    ensures
        r == conveyed(corrections@),
{
    let mut k: usize = 0;
    while k < corrections.len()
        invariant
            k <= corrections@.len(),
            forall|i: int| 0 <= i < k ==> (#[trigger] corrections@[i]).impact != Impact::Breakdown,
        decreases corrections@.len() - k,
    {
        if corrections[k].impact == Impact::Breakdown {
            return false;
        }
        k = k + 1;
    }
    true
}

/// The units the dictionary finds in a text, as `(unit, surface)`, in order of
/// first appearance, one per id.
pub open spec fn analysis_of(d: Seq<Lexeme>, text: Seq<char>) -> Seq<(Lexeme, Seq<char>)> {
    first_by_id(scan_hits(d, tokens(text), 0), seq![])
}

/// The canonical forms of the units said in a text.
pub open spec fn said_in(d: Seq<Lexeme>, text: Seq<char>) -> Seq<Seq<char>> {
    analysis_of(d, text).map_values(|h: (Lexeme, Seq<char>)| h.0.unit@)
}

/// The same normalization for speech and realizations: the words, lowercased,
/// one space between them and one at each end, so that `move  In ` and
/// `move in` are one thing.
pub open spec fn normalized(text: Seq<char>) -> Seq<char> {
    seq![' '] + join(tokens(text), ' ') + seq![' ']
}

/// Whether a realization was said: literally (which catches collocations the
/// dictionary does not list), or by lemmas, every content unit of the
/// realization being among the units said (which catches inflection). The
/// lemma route ignores word order and distance.
pub open spec fn mentioned(d: Seq<Lexeme>, realization: Seq<char>, said: Seq<Seq<char>>, transcript: Seq<char>) -> bool {
    let target = normalized(realization);
    let hs = analysis_of(d, realization);
    target.len() > 0 && (contains_sub(transcript, target) || (
        (exists|k: int| 0 <= k < hs.len() && is_content_id((#[trigger] hs[k]).0.id@))
        && forall|k: int| 0 <= k < hs.len() && is_content_id((#[trigger] hs[k]).0.id@) ==> said.contains(hs[k].0.unit@)
    ))
}

/// The item a correction names, trimmed.
pub open spec fn item_of(c: Correction) -> Option<Seq<char>> {
    match c.item {
        Some(s) => Some(trim(s@)),
        None => None,
    }
}

/// Whether a correction is about this concept: named by the concept's id or by
/// one of its realizations, or its reference wording mentions a realization.
pub open spec fn corrects_concept(d: Seq<Lexeme>, c: Correction, concept_id: Seq<char>, rs: Seq<Realization>) -> bool {
    item_of(c) == Some(concept_id) || exists|k: int| 0 <= k < rs.len() && (
        item_of(c) == Some((#[trigger] rs[k]).text@)
        || mentioned(d, rs[k].text@, said_in(d, c.correct@), normalized(c.correct@))
    )
}

/// The canonical units said in a transcript, analysed with the same
/// dictionary the texts were marked up with, so forms agree by construction.
pub fn said_units(dict: &Dict, transcript: &str) -> (r: Vec<String>)
    ensures
        views(r@) == said_in(dict@, transcript@),
{
    let a = dict.analyze(transcript);
    let ghost hs = analysis_of(dict@, transcript@);
    let mut out: Vec<String> = Vec::new();
    for k in 0..a.units.len()
        invariant
            hs == analysis_of(dict@, transcript@),
            a.units@.len() == hs.len(),
            forall|j: int| 0 <= j < a.units@.len() ==> reports(#[trigger] a.units@[j], hs[j]),
            views(out@) == said_in(dict@, transcript@).take(k as int),
    {
        proof {
            assert(reports(a.units@[k as int], hs[k as int]));
        }
        let ghost prev = views(out@);
        out.push(a.units[k].unit.clone());
        proof {
            assert(views(out@) =~= prev.push(hs[k as int].0.unit@));
            assert(said_in(dict@, transcript@)[k as int] == hs[k as int].0.unit@);
            assert(said_in(dict@, transcript@).take(k + 1) =~= said_in(dict@, transcript@).take(k as int).push(hs[k as int].0.unit@));
        }
    }
    proof {
        assert(said_in(dict@, transcript@).take(a.units@.len() as int) =~= said_in(dict@, transcript@));
    }
    out
}

/// Normalize a text: lowercased words, single spaces, a space at each end.
pub fn normalize(text: &str) -> (r: String)
    ensures
        r@ == normalized(text@),
{
    let toks = tokenize(text);
    let mut s = String::new();
    push_char(&mut s, ' ');
    proof {
        assert(views(toks@).len() == toks@.len());
    }
    if toks.len() > 0 {
        let body = join_tokens(&toks, 0, toks.len());
        proof {
            assert(views(toks@).subrange(0, toks@.len() as int) =~= tokens(text@));
        }
        push_str(&mut s, body.as_str());
    } else {
        proof {
            assert(tokens(text@) =~= Seq::<Seq<char>>::empty());
        }
    }
    push_char(&mut s, ' ');
    proof {
        assert(s@ =~= normalized(text@));
    }
    s
}

/// Whether a realization was said (see [`mentioned`]): `said` are the units
/// said, `normalized_transcript` the speech as [`normalize`] gives it.
pub fn mentions(dict: &Dict, realization: &str, said: &[String], normalized_transcript: &str) -> (r: bool)
    ensures
        r == mentioned(dict@, realization@, views(said@), normalized_transcript@),
{
    let target = normalize(realization);
    if target.as_str().is_empty() {
        return false;
    }
    if contains_str(normalized_transcript, target.as_str()) {
        return true;
    }
    let a = dict.analyze(realization);
    let ghost hs = analysis_of(dict@, realization@);
    let mut any = false;
    let mut all = true;
    let mut k: usize = 0;
    while k < a.units.len()
        invariant
            k <= a.units@.len(),
            a.units@.len() == hs.len(),
            forall|j: int| 0 <= j < a.units@.len() ==> reports(#[trigger] a.units@[j], hs[j]),
            any == exists|j: int| 0 <= j < k && is_content_id((#[trigger] hs[j]).0.id@),
            all == forall|j: int| 0 <= j < k && is_content_id((#[trigger] hs[j]).0.id@) ==> views(said@).contains(hs[j].0.unit@),
        decreases a.units@.len() - k,
    {
        proof {
            assert(reports(a.units@[k as int], hs[k as int]));
        }
        if a.units[k].is_content() {
            any = true;
            if !contains_string(said, a.units[k].unit.as_str()) {
                all = false;
            }
        }
        k = k + 1;
    }
    any && all
}

/// The first acceptable realization found in the speech, in the order the
/// requirement lists them, so the result is deterministic.
pub open spec fn first_mentioned(d: Seq<Lexeme>, rs: Seq<Realization>, said: Seq<Seq<char>>, transcript: Seq<char>, k: int) -> bool {
    &&& 0 <= k < rs.len()
    &&& mentioned(d, rs[k].text@, said, normalized(transcript))
    &&& forall|j: int| 0 <= j < k ==> !mentioned(d, (#[trigger] rs[j]).text@, said, normalized(transcript))
}

pub open spec fn any_mentioned(d: Seq<Lexeme>, rs: Seq<Realization>, said: Seq<Seq<char>>, transcript: Seq<char>) -> bool {
    exists|k: int| 0 <= k < rs.len() && mentioned(d, (#[trigger] rs[k]).text@, said, normalized(transcript))
}

/// The first realization of `realizations` said in `transcript`.
pub fn matched_realization(dict: &Dict, realizations: &[Realization], said: &[String], transcript: &str) -> (r: Option<String>)
    ensures
        r is None <==> !any_mentioned(dict@, realizations@, views(said@), transcript@),
        r matches Some(t) ==> exists|k: int| first_mentioned(dict@, realizations@, views(said@), transcript@, k)
            && t@ == (#[trigger] realizations@[k]).text@,
{
    let normalized_transcript = normalize(transcript);
    let mut k: usize = 0;
    while k < realizations.len()
        invariant
            k <= realizations@.len(),
            normalized_transcript@ == normalized(transcript@),
            forall|j: int| 0 <= j < k ==> !mentioned(dict@, (#[trigger] realizations@[j]).text@, views(said@), normalized(transcript@)),
        decreases realizations@.len() - k,
    {
        if mentions(dict, realizations[k].text.as_str(), said, normalized_transcript.as_str()) {
            proof {
                assert(first_mentioned(dict@, realizations@, views(said@), transcript@, k as int));
            }
            return Some(realizations[k].text.clone());
        }
        k = k + 1;
    }
    None
}

/// Whether a correction is about this concept (see [`corrects_concept`]).
pub fn corrects(dict: &Dict, c: &Correction, concept_id: &ConceptId, realizations: &[Realization]) -> (r: bool)
    ensures
        r == corrects_concept(dict@, *c, concept_id.0@, realizations@),
{
    let item: Option<String> = match c.item {
        Some(s) => Some(trim_str(s)),
        None => None,
    };
    let named_id = match &item {
        Some(t) => str_eq(t.as_str(), concept_id.as_str()),
        None => false,
    };
    if named_id {
        return true;
    }
    let correct_units = said_units(dict, c.correct);
    let correct_norm = normalize(c.correct);
    let mut k: usize = 0;
    while k < realizations.len()
        invariant
            k <= realizations@.len(),
            views(correct_units@) == said_in(dict@, c.correct@),
            correct_norm@ == normalized(c.correct@),
            item_of(*c) != Some(concept_id.0@),
            match item {
                Some(t) => item_of(*c) == Some(t@),
                None => item_of(*c) is None,
            },
            forall|j: int| 0 <= j < k ==> !(item_of(*c) == Some((#[trigger] realizations@[j]).text@)
                || mentioned(dict@, realizations@[j].text@, said_in(dict@, c.correct@), normalized(c.correct@))),
        decreases realizations@.len() - k,
    {
        let text = realizations[k].text.as_str();
        let named = match &item {
            Some(t) => str_eq(t.as_str(), text),
            None => false,
        };
        if named || mentions(dict, text, correct_units.as_slice(), correct_norm.as_str()) {
            return true;
        }
        k = k + 1;
    }
    false
}

pub open spec fn any_corrects(d: Seq<Lexeme>, cs: Seq<Correction>, concept_id: Seq<char>, rs: Seq<Realization>) -> bool {
    exists|i: int| 0 <= i < cs.len() && corrects_concept(d, #[trigger] cs[i], concept_id, rs)
}

/// Where a required concept falls: expressed, tried and missed, worked around,
/// or skipped. `said` are the units said in `transcript`.
///
/// A concept not expressed may still have been attempted: when the analysis
/// corrects this very concept (`I make a photo` for `I took a photo`) the
/// learner knows it and chose the wrong realization.
pub fn classify(
    dict: &Dict,
    concept_id: &ConceptId,
    realizations: &[Realization],
    said: &[String],
    transcript: &str,
    corrections: &[Correction],
) -> (r: Use)
    ensures
        (r is Expressed) == any_mentioned(dict@, realizations@, views(said@), transcript@),
        r matches Use::Expressed { realization } ==> exists|k: int|
            first_mentioned(dict@, realizations@, views(said@), transcript@, k)
            && realization@ == (#[trigger] realizations@[k]).text@,
        (r is WrongChoice) == (!any_mentioned(dict@, realizations@, views(said@), transcript@)
            && any_corrects(dict@, corrections@, concept_id.0@, realizations@)),
        r matches Use::WrongChoice { impact, correction_index } ==> {
            &&& correction_index < corrections@.len()
            &&& corrects_concept(dict@, corrections@[correction_index as int], concept_id.0@, realizations@)
            &&& forall|j: int| 0 <= j < correction_index ==> !corrects_concept(dict@, #[trigger] corrections@[j], concept_id.0@, realizations@)
            &&& impact == corrections@[correction_index as int].impact
        },
        (r is Workaround) == (!any_mentioned(dict@, realizations@, views(said@), transcript@)
            && !any_corrects(dict@, corrections@, concept_id.0@, realizations@) && conveyed(corrections@)),
        (r is Skipped) == (!any_mentioned(dict@, realizations@, views(said@), transcript@)
            && !any_corrects(dict@, corrections@, concept_id.0@, realizations@) && !conveyed(corrections@)),
{
    if let Some(t) = matched_realization(dict, realizations, said, transcript) {
        return Use::Expressed { realization: t };
    }
    let mut i: usize = 0;
    while i < corrections.len()
        invariant
            i <= corrections@.len(),
            !any_mentioned(dict@, realizations@, views(said@), transcript@),
            forall|j: int| 0 <= j < i ==> !corrects_concept(dict@, #[trigger] corrections@[j], concept_id.0@, realizations@),
        decreases corrections@.len() - i,
    {
        if corrects(dict, &corrections[i], concept_id, realizations) {
            return Use::WrongChoice { impact: corrections[i].impact, correction_index: i };
        }
        i = i + 1;
    }
    if meaning_conveyed(corrections) {
        Use::Workaround
    } else {
        Use::Skipped
    }
}

/// A correction is about a concept when it names any of the concept's
/// realizations, wherever it stands in the list, or when its reference
/// wording mentions any of them. So among the attempt's corrections there is
/// one about the concept, and when the attempt expressed none of its
/// realizations [`classify`] gives `WrongChoice`.
pub proof fn lemma_any_realization_identifies_the_concept(
    d: Seq<Lexeme>,
    cs: Seq<Correction>,
    i: int,
    concept_id: Seq<char>,
    rs: Seq<Realization>,
    k: int,
)
    requires
        0 <= i < cs.len(),
        0 <= k < rs.len(),
        item_of(cs[i]) == Some(rs[k].text@)
            || mentioned(d, rs[k].text@, said_in(d, cs[i].correct@), normalized(cs[i].correct@)),
    ensures
        corrects_concept(d, cs[i], concept_id, rs),
        any_corrects(d, cs, concept_id, rs),
{
    assert(item_of(cs[i]) == Some(rs[k].text@)
        || mentioned(d, rs[k].text@, said_in(d, cs[i].correct@), normalized(cs[i].correct@)));
    assert(corrects_concept(d, cs[i], concept_id, rs));
    assert(any_corrects(d, cs, concept_id, rs));
}

} // verus!
