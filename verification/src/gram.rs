//! The grammar inventory: which constructions exist and at what level.
//!
//! Every construction has a hierarchical key, `egp:clauses.conditional.c2.01`;
//! each coarser address is a prefix of the precise one, cut at a segment
//! boundary ([`Grain`]). Rolling the inventory up to any resolution is an
//! operation on those prefixes ([`Inventory::rollup`]).
use vstd::prelude::*;

use crate::lex::Cefr;
use crate::text::{
    char_is, chars_of, compare_str, eq_ignore_ascii_case, str_eq_ignore_ascii_case, field_bounds, fields, is_nonempty, join, lemma_fields_of_join,
    lemma_filter_push, lemma_join_prefix, no_char, push_char, push_str, seq_lt, split_char, str_eq, strs,
    lines_of, strictly_sorted, text_lines, to_uppercase, trim, trim_range, trim_str, unicode_uppercase, views,
};

verus! {

/// What an entry describes: a form, an intention, or both.
///
/// A `Form` can in principle be looked for in a text; a `Use` never can.
#[derive(Debug, Clone, Copy, PartialEq, Eq, Hash, Structural)]
pub enum Aspect {
    /// A form: "FORM: 'AND YET'".
    Form,
    /// A use: "USE: LINKING". Not recoverable from text.
    Use,
    /// Both.
    FormUse,
    /// Markup broken in the source itself; kept so that no construction is lost.
    Other,
}

impl Aspect {
    /// Whether such a construction can in principle be found in a text by parsing.
    pub fn is_detectable_in_principle(self) -> (r: bool)
        ensures
            r == (self == Aspect::Form || self == Aspect::FormUse),
    {
        match self {
            Aspect::Form | Aspect::FormUse => true,
            _ => false,
        }
    }
}

/// An example from the learner corpus.
#[derive(Debug, Clone, PartialEq, Eq)]
pub struct Example {
    pub text: String,
    /// Level of the script the example comes from (not the level of the construction).
    pub level: Option<Cefr>,
    /// First language of the author.
    pub l1: Option<String>,
    /// Whether the script passed. `Some(false)`: the construction was used but the
    /// exam failed, so the example must not be shown as a model.
    pub pass: Option<bool>,
}

impl Example {
    /// Fit to be shown as a model: taken from a script that passed.
    pub fn is_model(&self) -> (r: bool)
        ensures
            r == (self.pass == Some(true)),
    {
        match self.pass {
            Some(p) => p,
            None => false,
        }
    }
}

/// A grammatical construction.
#[derive(Debug, Clone, PartialEq, Eq)]
pub struct Feature {
    /// Stable key: `egp:conjunctions.coordinating.c2.02`.
    pub id: String,
    /// The source's own key, kept for reconciliation on rebuilds.
    pub src_id: String,
    /// Level at which the construction first reliably appears in the corpus.
    pub level: Cefr,
    /// `MODALITY`, `CLAUSES`, `PAST`, ...
    pub category: String,
    /// `combining`, `conditional`, ... within the category.
    pub subcategory: String,
    pub aspect: Aspect,
    /// Topic without the aspect prefix: `'AND YET', CONCESSIVE`.
    pub topic: String,
    /// "Can use ..." statement, ready to be shown to a student.
    pub can_do: String,
    /// A 1 to 3 scale present on a minority of entries; undocumented upstream.
    pub lexical_range: Option<u8>,
    pub examples: Vec<Example>,
}

/// The fields at odd positions: what stands between the 1st and 2nd quote, the
/// 3rd and 4th, and so on (`skip(1).step_by(2)`).
pub open spec fn odd_fields(fs: Seq<Seq<char>>) -> Seq<Seq<char>> {
    Seq::new(fs.len() / 2, |k: int| fs[2 * k + 1])
}

/// The literals a topic names between single quotes, trimmed, empty ones dropped
/// (as written in the topic).
pub open spec fn quoted_literals(topic: Seq<char>) -> Seq<Seq<char>> {
    odd_fields(fields(topic, char_is('\''))).map_values(|f: Seq<char>| trim(f)).filter(
        is_nonempty(),
    )
}

pub open spec fn uppercased() -> spec_fn(Seq<char>) -> Seq<char> {
    |f: Seq<char>| unicode_uppercase(f)
}

/// The markers of a topic: its quoted literals, each uppercased.
pub open spec fn markers_of(topic: Seq<char>) -> Seq<Seq<char>> {
    quoted_literals(topic).map_values(uppercased())
}

pub open spec fn derefs<T>(s: Seq<&T>) -> Seq<T> {
    s.map_values(|x: &T| *x)
}

pub open spec fn model_example() -> spec_fn(Example) -> bool {
    |e: Example| e.pass == Some(true)
}

impl Feature {
    /// Literals the topic names explicitly, trimmed and uppercased:
    /// `'not only … but also'` gives `["NOT ONLY … BUT ALSO"]`. Raw material
    /// for a detector, not a detector.
    pub fn markers(&self) -> (r: Vec<String>)
        ensures
            views(r@) == markers_of(self.topic@),
    {
        let topic = self.topic.as_str();
        let cs = chars_of(topic);
        let bounds = field_bounds(&cs, '\'');
        let ghost fs = fields(cs@, char_is('\''));
        let ghost trimmed = odd_fields(fs).map_values(|f: Seq<char>| trim(f));
        assert forall|j: int| 0 <= j < bounds.len() implies (#[trigger] bounds@[j]).0 <= bounds@[j].1
            && bounds@[j].1 <= cs@.len() && cs@.subrange(bounds@[j].0 as int, bounds@[j].1 as int)
            == fields(cs@, char_is('\''))[j] by {
            assert(cs@.subrange(bounds@[j].0 as int, bounds@[j].1 as int) == fields(cs@, char_is('\''))[j]);
        }
        let mut out: Vec<String> = Vec::new();
        let mut k: usize = 1;
        while k < bounds.len()
            invariant
                cs@ == topic@,
                topic@ == self.topic@,
                bounds.len() == fs.len(),
                fs == fields(cs@, char_is('\'')),
                trimmed == odd_fields(fs).map_values(|f: Seq<char>| trim(f)),
                forall|j: int| 0 <= j < bounds.len() ==> (#[trigger] bounds@[j]).0 <= bounds@[j].1
                    && bounds@[j].1 <= cs@.len() && cs@.subrange(bounds@[j].0 as int, bounds@[j].1 as int)
                    == fields(cs@, char_is('\''))[j],
                k % 2 == 1,
                1 <= k <= bounds.len() + 1,
                views(out@) == trimmed.take((k as int - 1) / 2).filter(is_nonempty()).map_values(uppercased()),
            decreases bounds.len() + 1 - k,
        {
            let (a, b) = bounds[k];
            let (lo, hi) = trim_range(&cs, a, b);
            let m: usize = (k - 1) / 2;
            proof {
                assert(fs[k as int] == cs@.subrange(a as int, b as int));
                assert(odd_fields(fs)[m as int] == fs[2 * m + 1]);
                assert(trimmed[m as int] == cs@.subrange(lo as int, hi as int));
                assert(trimmed.take(m + 1) =~= trimmed.take(m as int).push(trimmed[m as int]));
                lemma_filter_push(trimmed.take(m as int), trimmed[m as int], is_nonempty());
            }
            let ghost prev = views(out@);
            if lo < hi {
                let piece = topic.substring_char(lo, hi);
                let marker = to_uppercase(piece);
                out.push(marker);
                proof {
                    assert(views(out@) =~= prev.push(marker@));
                    assert(trimmed.take(m as int).filter(is_nonempty()).push(trimmed[m as int]).map_values(uppercased())
                        =~= trimmed.take(m as int).filter(is_nonempty()).map_values(uppercased()).push(unicode_uppercase(trimmed[m as int])));
                }
            }
            k = k + 2;
        }
        proof {
            assert(trimmed.take((k as int - 1) / 2) =~= trimmed);
            assert(quoted_literals(self.topic@) == trimmed.filter(is_nonempty()));
        }
        out
    }

    /// Examples fit to be shown to a student: only those from scripts that passed.
    pub fn model_examples(&self) -> (r: Vec<&Example>)
        ensures
            derefs(r@) == self.examples@.filter(model_example()),
    {
        let mut out: Vec<&Example> = Vec::new();
        for i in 0..self.examples.len()
            invariant
                derefs(out@) == self.examples@.take(i as int).filter(model_example()),
        {
            let e = &self.examples[i];
            proof {
                assert(self.examples@.take(i + 1) =~= self.examples@.take(i as int).push(*e));
                lemma_filter_push(self.examples@.take(i as int), *e, model_example());
            }
            let ghost prev = derefs(out@);
            if e.is_model() {
                out.push(e);
                proof {
                    assert(derefs(out@) =~= prev.push(*e));
                }
            }
        }
        proof {
            assert(self.examples@.take(self.examples.len() as int) =~= self.examples@);
        }
        out
    }
}

} // verus!

verus! {

/// Resolution in the key hierarchy.
///
/// `egp:clauses` is a `Category`, `egp:clauses.conditional` a `Node`,
/// `egp:clauses.conditional.c2` a `Rung`, `egp:clauses.conditional.c2.01` a `Feature`.
#[derive(Debug, Clone, Copy, PartialEq, Eq, PartialOrd, Ord, Hash, Structural)]
pub enum Grain {
    Category,
    Node,
    Rung,
    Feature,
}

pub open spec fn grain_segments(g: Grain) -> int {
    match g {
        Grain::Category => 1,
        Grain::Node => 2,
        Grain::Rung => 3,
        Grain::Feature => 4,
    }
}

impl Grain {
    /// How many segments after `egp:` this resolution has.
    fn segments(self) -> (r: usize)
        ensures
            r == grain_segments(self),
    {
        match self {
            Grain::Category => 1,
            Grain::Node => 2,
            Grain::Rung => 3,
            Grain::Feature => 4,
        }
    }
}

/// The namespace of inventory keys.
pub open spec fn ns() -> Seq<char> {
    seq!['e', 'g', 'p', ':']
}

/// The segments of a key after `egp:`, empty ones dropped; nothing for a key
/// outside the namespace.
pub open spec fn parts_of(id: Seq<char>) -> Seq<Seq<char>> {
    if id.len() >= 4 && id.take(4) == ns() {
        fields(id.skip(4), char_is('.')).filter(is_nonempty())
    } else {
        Seq::empty()
    }
}

pub open spec fn grain_of(id: Seq<char>) -> Option<Grain> {
    let n = parts_of(id).len();
    if n == 1 {
        Some(Grain::Category)
    } else if n == 2 {
        Some(Grain::Node)
    } else if n == 3 {
        Some(Grain::Rung)
    } else if n == 4 {
        Some(Grain::Feature)
    } else {
        None
    }
}

/// The key cut to a coarser resolution, if it has that many segments.
pub open spec fn truncated(id: Seq<char>, g: Grain) -> Option<Seq<char>> {
    let p = parts_of(id);
    if p.len() >= grain_segments(g) {
        Some(ns() + join(p.take(grain_segments(g)), '.'))
    } else {
        None
    }
}

/// `a` addresses `b`: `b` is `a` itself or lies under it, cut at a segment
/// boundary (`egp:past` does not cover `egp:passives`).
pub open spec fn covers_key(a: Seq<char>, b: Seq<char>) -> bool {
    b == a || (b.len() > a.len() && b.take(a.len() as int) == a && b[a.len() as int] == '.')
}

/// A skill key: an inventory address at any resolution.
#[derive(Debug, Clone, PartialEq, Eq, PartialOrd, Ord, Hash)]
pub struct SkillId(pub String);

impl SkillId {
    pub open spec fn key(&self) -> Seq<char> {
        self.0@
    }

    pub fn as_str(&self) -> (r: &str)
        ensures
            r@ == self.key(),
    {
        self.0.as_str()
    }

    /// Segments after `egp:`; empty when the key is not from our namespace.
    fn parts(&self) -> (r: Vec<String>)
        ensures
            views(r@) == parts_of(self.key()),
    {
        let s = self.0.as_str();
        let cs = chars_of(s);
        proof {
            reveal_strlit("egp:");
        }
        if cs.len() >= 4 && cs[0] == 'e' && cs[1] == 'g' && cs[2] == 'p' && cs[3] == ':' {
            proof {
                assert(cs@.take(4) =~= ns());
            }
            let rest = s.substring_char(4, cs.len());
            let all = split_char(rest, '.');
            let mut out: Vec<String> = Vec::new();
            let mut i: usize = 0;
            while i < all.len()
                invariant
                    i <= all.len(),
                    views(all@) == fields(rest@, char_is('.')),
                    views(out@) == views(all@).take(i as int).filter(is_nonempty()),
                decreases all.len() - i,
            {
                proof {
                    assert(views(all@).take(i + 1) =~= views(all@).take(i as int).push(all@[i as int]@));
                    lemma_filter_push(views(all@).take(i as int), all@[i as int]@, is_nonempty());
                }
                let ghost prev = views(out@);
                if !all[i].as_str().is_empty() {
                    let part = all[i].clone();
                    out.push(part);
                    proof {
                        assert(views(out@) =~= prev.push(part@));
                    }
                }
                i = i + 1;
            }
            proof {
                assert(views(all@).take(i as int) =~= views(all@));
                assert(rest@ =~= s@.skip(4));
            }
            out
        } else {
            proof {
                if s@.len() >= 4 && s@.take(4) == ns() {
                    assert(s@[0] == ns()[0]);
                    assert(s@[1] == ns()[1]);
                    assert(s@[2] == ns()[2]);
                    assert(s@[3] == ns()[3]);
                }
            }
            Vec::new()
        }
    }

    /// Resolution of the key; `None` for a foreign or empty key.
    pub fn grain(&self) -> (r: Option<Grain>)
        ensures
            r == grain_of(self.key()),
    {
        let n = self.parts().len();
        if n == 1 {
            Some(Grain::Category)
        } else if n == 2 {
            Some(Grain::Node)
        } else if n == 3 {
            Some(Grain::Rung)
        } else if n == 4 {
            Some(Grain::Feature)
        } else {
            None
        }
    }

    /// The key cut to a coarser resolution; `None` if it is already coarser.
    pub fn truncate(&self, grain: Grain) -> (r: Option<SkillId>)
        ensures
            r matches Some(t) ==> truncated(self.key(), grain) == Some(t.key()),
            r is None ==> truncated(self.key(), grain) is None,
    {
        let parts = self.parts();
        let n = grain.segments();
        if parts.len() >= n {
            let mut s = "egp:".to_owned();
            proof {
                reveal_strlit("egp:");
                assert(s@ =~= ns());
            }
            let mut i: usize = 0;
            while i < n
                invariant
                    1 <= n <= parts.len(),
                    i <= n,
                    s@ == ns() + join(views(parts@).take(i as int), '.'),
                decreases n - i,
            {
                let ghost before = views(parts@).take(i as int);
                if i > 0 {
                    push_char(&mut s, '.');
                }
                push_str(&mut s, parts[i].as_str());
                proof {
                    let after = views(parts@).take(i + 1);
                    assert(after.drop_last() =~= before);
                    assert(after.last() == parts@[i as int]@);
                    if i == 0 {
                        assert(join(after, '.') == after[0]);
                        assert(s@ =~= ns() + join(after, '.'));
                    } else {
                        assert(s@ =~= ns() + join(after, '.'));
                    }
                }
                i = i + 1;
            }
            Some(SkillId(s))
        } else {
            None
        }
    }

    /// Whether this key addresses `other`: `other` itself or something under it.
    pub fn covers(&self, other: &SkillId) -> (r: bool)
        ensures
            r == covers_key(self.key(), other.key()),
    {
        let a = chars_of(self.0.as_str());
        let b = chars_of(other.0.as_str());
        if b.len() < a.len() {
            proof {
                if other.key() == self.key() {
                    assert(a@.len() == b@.len());
                }
            }
            return false;
        }
        let mut i: usize = 0;
        while i < a.len()
            invariant
                a@ == self.key(),
                b@ == other.key(),
                a.len() <= b.len(),
                i <= a.len(),
                b@.take(i as int) == a@.take(i as int),
            decreases a.len() - i,
        {
            if a[i] != b[i] {
                proof {
                    assert(b@.take(a.len() as int)[i as int] != a@[i as int]);
                    assert(b@.take(a.len() as int) != a@);
                    assert(b@[i as int] != a@[i as int]);
                }
                return false;
            }
            proof {
                assert(b@.take(i + 1) =~= b@.take(i as int).push(b@[i as int]));
                assert(a@.take(i + 1) =~= a@.take(i as int).push(a@[i as int]));
            }
            i = i + 1;
        }
        proof {
            assert(a@.take(a.len() as int) =~= a@);
        }
        if b.len() == a.len() {
            proof {
                assert(b@.take(b.len() as int) =~= b@);
            }
            true
        } else {
            b[a.len()] == '.'
        }
    }
}

} // verus!

verus! {

impl From<&str> for SkillId {
    fn from(s: &str) -> (r: SkillId)
        ensures
            r.key() == s@,
    {
        SkillId(s.to_owned())
    }
}

impl vstd::std_specs::convert::FromSpecImpl<&str> for SkillId {
    open spec fn obeys_from_spec() -> bool {
        false
    }

    open spec fn from_spec(v: &str) -> SkillId {
        SkillId(choose|s: String| s@ == v@)
    }
}

} // verus!

verus! {

/// A rolled-up group: an address and everything that fell under it.
#[derive(Debug, Clone)]
pub struct Group<'a> {
    pub id: SkillId,
    pub features: Vec<&'a Feature>,
}

impl<'a> Group<'a> {
    pub fn len(&self) -> (r: usize)
        ensures
            r == self.features@.len(),
    {
        self.features.len()
    }

    pub fn is_empty(&self) -> (r: bool)
        ensures
            r == (self.features@.len() == 0),
    {
        self.features.len() == 0
    }

    /// The span of levels inside the group: its lowest and highest level.
    pub fn level_span(&self) -> (r: Option<(Cefr, Cefr)>)
        ensures
            r is None <==> self.features@.len() == 0,
            r matches Some(span) ==> {
                &&& forall|i: int| 0 <= i < self.features@.len() ==>
                    span.0.ord() <= (#[trigger] self.features@[i]).level.ord() <= span.1.ord()
                &&& exists|i: int| 0 <= i < self.features@.len() && (#[trigger] self.features@[i]).level == span.0
                &&& exists|i: int| 0 <= i < self.features@.len() && (#[trigger] self.features@[i]).level == span.1
            },
    {
        if self.features.len() == 0 {
            return None;
        }
        let first = self.features[0].level;
        let mut lo = first;
        let mut hi = first;
        let ghost mut ilo: int = 0;
        let ghost mut ihi: int = 0;
        let mut i: usize = 1;
        while i < self.features.len()
            invariant
                1 <= i <= self.features@.len(),
                0 <= ilo < i,
                0 <= ihi < i,
                self.features@[ilo].level == lo,
                self.features@[ihi].level == hi,
                forall|j: int| 0 <= j < i ==> lo.ord() <= (#[trigger] self.features@[j]).level.ord() <= hi.ord(),
            decreases self.features@.len() - i,
        {
            let l = self.features[i].level;
            if !lo.at_most(l) {
                lo = l;
                proof { ilo = i as int; }
            }
            if !l.at_most(hi) {
                hi = l;
                proof { ihi = i as int; }
            }
            i = i + 1;
        }
        Some((lo, hi))
    }
}

/// The whole inventory, in file order.
pub struct Inventory {
    features: Vec<Feature>,
}

impl View for Inventory {
    type V = Seq<Feature>;

    closed spec fn view(&self) -> Seq<Feature> {
        self.features@
    }
}

pub open spec fn at_level_pred(level: Cefr) -> spec_fn(Feature) -> bool {
    |f: Feature| f.level == level
}

pub open spec fn up_to_pred(level: Cefr) -> spec_fn(Feature) -> bool {
    |f: Feature| f.level.ord() <= level.ord()
}

pub open spec fn category_pred(category: Seq<char>) -> spec_fn(Feature) -> bool {
    |f: Feature| eq_ignore_ascii_case(f.category@, category)
}

pub open spec fn under_pred(prefix: Seq<char>) -> spec_fn(Feature) -> bool {
    |f: Feature| covers_key(prefix, f.id@)
}

/// The features whose key, cut to `g`, is `key`.
pub open spec fn in_group(g: Grain, key: Seq<char>) -> spec_fn(Feature) -> bool {
    |f: Feature| truncated(f.id@, g) == Some(key)
}

impl Inventory {
    /// An inventory over these constructions, kept in the given order.
    pub fn from_features(features: Vec<Feature>) -> (r: Inventory)
        ensures
            r@ == features@,
    {
        Inventory { features }
    }

    /// The construction with this key. Should a key occur twice, the later entry wins.
    pub fn get(&self, id: &str) -> (r: Option<&Feature>)
        ensures
            r is None <==> forall|i: int| 0 <= i < self@.len() ==> (#[trigger] self@[i]).id@ != id@,
            r matches Some(f) ==> exists|i: int|
                0 <= i < self@.len() && self@[i] == *f && f.id@ == id@ && forall|j: int|
                    i < j < self@.len() ==> (#[trigger] self@[j]).id@ != id@,
    {
        let mut i = self.features.len();
        while i > 0
            invariant
                i <= self.features@.len(),
                forall|j: int| i <= j < self.features@.len() ==> (#[trigger] self.features@[j]).id@ != id@,
            decreases i,
        {
            i = i - 1;
            if str_eq(self.features[i].id.as_str(), id) {
                return Some(&self.features[i]);
            }
        }
        None
    }

    /// All constructions, in file order.
    pub fn all(&self) -> (r: &[Feature])
        ensures
            r@ == self@,
    {
        self.features.as_slice()
    }

    pub fn len(&self) -> (r: usize)
        ensures
            r == self@.len(),
    {
        self.features.len()
    }

    pub fn is_empty(&self) -> (r: bool)
        ensures
            r == (self@.len() == 0),
    {
        self.features.len() == 0
    }

    /// Constructions of exactly this level: "what is learnt at B2".
    pub fn at_level(&self, level: Cefr) -> (r: Vec<&Feature>)
        ensures
            derefs(r@) == self@.filter(at_level_pred(level)),
    {
        let mut out: Vec<&Feature> = Vec::new();
        for i in 0..self.features.len()
            invariant
                derefs(out@) == self.features@.take(i as int).filter(at_level_pred(level)),
        {
            let f = &self.features[i];
            proof {
                assert(self.features@.take(i + 1) =~= self.features@.take(i as int).push(*f));
                lemma_filter_push(self.features@.take(i as int), *f, at_level_pred(level));
            }
            let ghost prev = derefs(out@);
            if f.level == level {
                out.push(f);
                proof { assert(derefs(out@) =~= prev.push(*f)); }
            }
        }
        proof { assert(self.features@.take(self.features.len() as int) =~= self.features@); }
        out
    }

    /// Everything up to the level inclusive: what a student at that level should know.
    pub fn up_to(&self, level: Cefr) -> (r: Vec<&Feature>)
        ensures
            derefs(r@) == self@.filter(up_to_pred(level)),
    {
        let mut out: Vec<&Feature> = Vec::new();
        for i in 0..self.features.len()
            invariant
                derefs(out@) == self.features@.take(i as int).filter(up_to_pred(level)),
        {
            let f = &self.features[i];
            proof {
                assert(self.features@.take(i + 1) =~= self.features@.take(i as int).push(*f));
                lemma_filter_push(self.features@.take(i as int), *f, up_to_pred(level));
            }
            let ghost prev = derefs(out@);
            if f.level.at_most(level) {
                out.push(f);
                proof { assert(derefs(out@) =~= prev.push(*f)); }
            }
        }
        proof { assert(self.features@.take(self.features.len() as int) =~= self.features@); }
        out
    }

    /// Constructions of a category (`MODALITY`), ASCII case-insensitively.
    pub fn in_category(&self, category: &str) -> (r: Vec<&Feature>)
        ensures
            derefs(r@) == self@.filter(category_pred(category@)),
    {
        let mut out: Vec<&Feature> = Vec::new();
        for i in 0..self.features.len()
            invariant
                derefs(out@) == self.features@.take(i as int).filter(category_pred(category@)),
        {
            let f = &self.features[i];
            proof {
                assert(self.features@.take(i + 1) =~= self.features@.take(i as int).push(*f));
                lemma_filter_push(self.features@.take(i as int), *f, category_pred(category@));
            }
            let ghost prev = derefs(out@);
            if str_eq_ignore_ascii_case(f.category.as_str(), category) {
                out.push(f);
                proof { assert(derefs(out@) =~= prev.push(*f)); }
            }
        }
        proof { assert(self.features@.take(self.features.len() as int) =~= self.features@); }
        out
    }

    /// Everything a key of any resolution addresses: `egp:clauses.conditional`
    /// gives the whole node, `egp:clauses.conditional.c2.01` one entry.
    pub fn under(&self, prefix: &SkillId) -> (r: Vec<&Feature>)
        ensures
            derefs(r@) == self@.filter(under_pred(prefix.key())),
    {
        let mut out: Vec<&Feature> = Vec::new();
        for i in 0..self.features.len()
            invariant
                derefs(out@) == self.features@.take(i as int).filter(under_pred(prefix.key())),
        {
            let f = &self.features[i];
            proof {
                assert(self.features@.take(i + 1) =~= self.features@.take(i as int).push(*f));
                lemma_filter_push(self.features@.take(i as int), *f, under_pred(prefix.key()));
            }
            let ghost prev = derefs(out@);
            let key = SkillId(f.id.clone());
            if prefix.covers(&key) {
                out.push(f);
                proof { assert(derefs(out@) =~= prev.push(*f)); }
            }
        }
        proof { assert(self.features@.take(self.features.len() as int) =~= self.features@); }
        out
    }
}

} // verus!

verus! {

pub open spec fn opt_key(k: Option<SkillId>) -> Option<Seq<char>> {
    match k {
        Some(s) => Some(s.key()),
        None => None,
    }
}

pub open spec fn group_keys<'a>(gs: Seq<Group<'a>>) -> Seq<Seq<char>> {
    gs.map_values(|g: Group<'a>| g.id.key())
}

pub open spec fn skill_keys(ks: Seq<SkillId>) -> Seq<Seq<char>> {
    ks.map_values(|k: SkillId| k.key())
}

/// Some group of `r` has key `k`.
pub open spec fn has_group<'a>(r: Seq<Group<'a>>, k: Seq<char>) -> bool {
    exists|m: int| 0 <= m < r.len() && r[m].id.key() == k
}

/// What [`Inventory::rollup`] returns for `feats` at `g`: groups in strictly
/// increasing key order, each non-empty and holding exactly the features (in
/// inventory order) whose key cuts to its own, and no feature with a key at
/// that resolution left out.
pub open spec fn is_rollup<'a>(feats: Seq<Feature>, g: Grain, r: Seq<Group<'a>>) -> bool {
    &&& strictly_sorted(group_keys(r))
    &&& forall|m: int| 0 <= m < r.len() ==> {
        &&& derefs((#[trigger] r[m]).features@) == feats.filter(in_group(g, r[m].id.key()))
        &&& r[m].features@.len() > 0
    }
    &&& forall|j: int| 0 <= j < feats.len() ==> match truncated((#[trigger] feats[j]).id@, g) {
        Some(k) => has_group(r, k),
        None => true,
    }
}

/// Some entry of `keys` is `x`.
pub open spec fn key_present(keys: Seq<Option<SkillId>>, x: Seq<char>) -> bool {
    exists|j: int| 0 <= j < keys.len() && opt_key(keys[j]) == Some(x)
}

fn copy_key(k: &SkillId) -> (r: SkillId)
    ensures
        r == *k,
{
    SkillId(k.0.clone())
}

impl Inventory {
    /// The keys of all constructions cut to `grain`, in inventory order.
    fn truncated_keys(&self, grain: Grain) -> (r: Vec<Option<SkillId>>)
        ensures
            r.len() == self@.len(),
            forall|j: int| 0 <= j < r.len() ==> opt_key(#[trigger] r@[j]) == truncated(self@[j].id@, grain),
    {
        let mut out: Vec<Option<SkillId>> = Vec::new();
        for i in 0..self.features.len()
            invariant
                out.len() == i,
                forall|j: int| 0 <= j < i ==> opt_key(#[trigger] out@[j]) == truncated(self.features@[j].id@, grain),
        {
            let k = SkillId(self.features[i].id.clone()).truncate(grain);
            out.push(k);
        }
        out
    }

    /// The distinct keys among `keys`, sorted.
    fn distinct_sorted(keys: &Vec<Option<SkillId>>) -> (r: Vec<SkillId>)
        ensures
            strictly_sorted(skill_keys(r@)),
            forall|m: int| 0 <= m < r.len() ==> key_present(keys@, (#[trigger] r@[m]).key()),
            forall|j: int| 0 <= j < keys.len() && (#[trigger] keys@[j]) is Some ==>
                exists|m: int| 0 <= m < r.len() && opt_key(keys@[j]) == Some((#[trigger] r@[m]).key()),
    {
        let mut out: Vec<SkillId> = Vec::new();
        let mut i: usize = 0;
        while i < keys.len()
            invariant
                i <= keys.len(),
                strictly_sorted(skill_keys(out@)),
                forall|m: int| 0 <= m < out.len() ==> key_present(keys@, (#[trigger] out@[m]).key()),
                forall|j: int| 0 <= j < i && (#[trigger] keys@[j]) is Some ==>
                    exists|m: int| 0 <= m < out.len() && opt_key(keys@[j]) == Some((#[trigger] out@[m]).key()),
            decreases keys.len() - i,
        {
            match &keys[i] {
                None => {},
                Some(k) => {
                    let mut p: usize = 0;
                    let mut found = false;
                    while p < out.len()
                        invariant_except_break
                            !found,
                        invariant
                            p <= out.len(),
                            forall|a: int| 0 <= a < p ==> seq_lt((#[trigger] out@[a]).key(), k.key()),
                        ensures
                            p <= out.len(),
                            forall|a: int| 0 <= a < p ==> seq_lt((#[trigger] out@[a]).key(), k.key()),
                            found ==> p < out.len() && out@[p as int].key() == k.key(),
                            !found ==> p == out.len() || seq_lt(k.key(), out@[p as int].key()),
                        decreases out.len() - p,
                    {
                        let c = compare_str(out[p].as_str(), k.as_str());
                        if c == 0 {
                            found = true;
                            break;
                        }
                        if c > 0 {
                            break;
                        }
                        p = p + 1;
                    }
                    if found {
                        proof {
                            assert(opt_key(keys@[i as int]) == Some(out@[p as int].key()));
                        }
                    } else {
                        let ghost old_out = out@;
                        proof {
                            if p < out.len() {
                                crate::text::lemma_seq_lt_total(out@[p as int].key(), k.key());
                                crate::text::lemma_seq_lt_asymmetric(out@[p as int].key(), k.key());
                            }
                        }
                        out.insert(p, copy_key(k));
                        proof {
                            assert(out@ == old_out.insert(p as int, *k));
                            assert forall|a: int, b: int| 0 <= a < b < out.len() implies seq_lt(
                                #[trigger] skill_keys(out@)[a],
                                #[trigger] skill_keys(out@)[b],
                            ) by {
                                if b < p {
                                    assert(skill_keys(old_out)[a] == skill_keys(out@)[a]);
                                    assert(skill_keys(old_out)[b] == skill_keys(out@)[b]);
                                } else if b == p {
                                    assert(out@[a] == old_out[a]);
                                } else if a > p {
                                    assert(skill_keys(old_out)[a - 1] == skill_keys(out@)[a]);
                                    assert(skill_keys(old_out)[b - 1] == skill_keys(out@)[b]);
                                } else if a == p {
                                    assert(out@[b] == old_out[b - 1]);
                                    if b - 1 > p {
                                        assert(seq_lt(skill_keys(old_out)[p as int], skill_keys(old_out)[b - 1]));
                                        crate::text::lemma_seq_lt_transitive(k.key(), old_out[p as int].key(), old_out[b - 1].key());
                                    }
                                } else {
                                    assert(out@[a] == old_out[a]);
                                    assert(out@[b] == old_out[b - 1]);
                                    if b - 1 > p {
                                        crate::text::lemma_seq_lt_transitive(old_out[a].key(), k.key(), old_out[p as int].key());
                                        assert(seq_lt(skill_keys(old_out)[p as int], skill_keys(old_out)[b - 1]));
                                        crate::text::lemma_seq_lt_transitive(old_out[a].key(), old_out[p as int].key(), old_out[b - 1].key());
                                    } else {
                                        crate::text::lemma_seq_lt_transitive(old_out[a].key(), k.key(), old_out[p as int].key());
                                    }
                                }
                            }
                            assert forall|m: int| 0 <= m < out.len() implies key_present(keys@, (#[trigger] out@[m]).key()) by {
                                if m < p {
                                    assert(out@[m] == old_out[m]);
                                } else if m == p {
                                    assert(opt_key(keys@[i as int]) == Some(out@[m].key()));
                                } else {
                                    assert(out@[m] == old_out[m - 1]);
                                }
                            }
                            assert forall|j: int| 0 <= j < i + 1 && (#[trigger] keys@[j]) is Some implies
                                exists|m: int| 0 <= m < out.len() && opt_key(keys@[j]) == Some((#[trigger] out@[m]).key()) by {
                                if j == i {
                                    assert(out@[p as int] == *k);
                                } else {
                                    let m0 = choose|m: int| 0 <= m < old_out.len() && opt_key(keys@[j]) == Some((#[trigger] old_out[m]).key());
                                    if m0 < p {
                                        assert(out@[m0] == old_out[m0]);
                                    } else {
                                        assert(out@[m0 + 1] == old_out[m0]);
                                    }
                                }
                            }
                        }
                    }
                },
            }
            i = i + 1;
        }
        out
    }

    /// The inventory rolled up to a resolution: `Category`, `Node`, `Rung` or
    /// `Feature`. Groups are sorted by key, so the order is stable between runs.
    pub fn rollup(&self, grain: Grain) -> (r: Vec<Group<'_>>)
        ensures
            is_rollup(self@, grain, r@),
    {
        let keys = self.truncated_keys(grain);
        let ks = Self::distinct_sorted(&keys);
        let mut out: Vec<Group<'_>> = Vec::new();
        let mut m: usize = 0;
        while m < ks.len()
            invariant
                m <= ks.len(),
                out.len() == m,
                keys.len() == self@.len(),
                forall|j: int| 0 <= j < keys.len() ==> opt_key(#[trigger] keys@[j]) == truncated(self@[j].id@, grain),
                strictly_sorted(skill_keys(ks@)),
                forall|t: int| 0 <= t < ks.len() ==> key_present(keys@, (#[trigger] ks@[t]).key()),
                forall|j: int| 0 <= j < keys.len() && (#[trigger] keys@[j]) is Some ==>
                    exists|t: int| 0 <= t < ks.len() && opt_key(keys@[j]) == Some((#[trigger] ks@[t]).key()),
                forall|t: int| 0 <= t < m ==> {
                    &&& (#[trigger] out@[t]).id.key() == ks@[t].key()
                    &&& derefs(out@[t].features@) == self@.filter(in_group(grain, ks@[t].key()))
                    &&& out@[t].features@.len() > 0
                },
            decreases ks.len() - m,
        {
            let key = &ks[m];
            let mut fs: Vec<&Feature> = Vec::new();
            let mut j: usize = 0;
            while j < self.features.len()
                invariant
                    j <= self.features@.len(),
                    keys.len() == self.features@.len(),
                    self@ == self.features@,
                    forall|j: int| 0 <= j < keys.len() ==> opt_key(#[trigger] keys@[j]) == truncated(self@[j].id@, grain),
                    derefs(fs@) == self.features@.take(j as int).filter(in_group(grain, key.key())),
                decreases self.features@.len() - j,
            {
                let f = &self.features[j];
                proof {
                    assert(self.features@.take(j + 1) =~= self.features@.take(j as int).push(*f));
                    lemma_filter_push(self.features@.take(j as int), *f, in_group(grain, key.key()));
                    assert(opt_key(keys@[j as int]) == truncated(f.id@, grain));
                }
                let ghost prev = derefs(fs@);
                let hit = match &keys[j] {
                    Some(k) => str_eq(k.as_str(), key.as_str()),
                    None => false,
                };
                if hit {
                    fs.push(f);
                    proof { assert(derefs(fs@) =~= prev.push(*f)); }
                }
                j = j + 1;
            }
            proof {
                assert(self.features@.take(j as int) =~= self@);
                assert(key_present(keys@, key.key()));
                let w = choose|w: int| 0 <= w < keys.len() && opt_key(keys@[w]) == Some(key.key());
                assert(in_group(grain, key.key())(self@[w]));
                self@.lemma_filter_contains(in_group(grain, key.key()), w);
                assert(self@.filter(in_group(grain, key.key())).contains(self@[w]));
            }
            out.push(Group { id: copy_key(key), features: fs });
            m = m + 1;
        }
        proof {
            assert(group_keys(out@) =~= skill_keys(ks@));
            assert forall|j: int| 0 <= j < self@.len() implies match truncated((#[trigger] self@[j]).id@, grain) {
                Some(k) => has_group(out@, k),
                None => true,
            } by {
                if keys@[j] is Some {
                    let t = choose|t: int| 0 <= t < ks.len() && opt_key(keys@[j]) == Some((#[trigger] ks@[t]).key());
                    assert(out@[t].id.key() == ks@[t].key());
                }
            }
        }
        out
    }
}

} // verus!

verus! {
/// A group as rollup makes them: non-empty, holding exactly the features whose
/// key cuts to its own at `g`.
pub open spec fn group_ok<'a>(feats: Seq<Feature>, g: Grain, x: Group<'a>) -> bool {
    &&& derefs(x.features@) == feats.filter(in_group(g, x.id.key()))
    &&& x.features@.len() > 0
}

/// The level of a group's first feature: the key ladders are ordered by.
pub open spec fn first_level<'a>(x: Group<'a>) -> int {
    x.features@[0].level.ord()
}

/// What [`Inventory::ladder`] returns for `node`: the rungs under the node, each
/// once, ordered bottom-up by level (equal levels in no fixed order).
pub open spec fn is_ladder<'a>(feats: Seq<Feature>, node: Seq<char>, r: Seq<Group<'a>>) -> bool {
    &&& forall|m: int| 0 <= m < r.len() ==> group_ok(feats, Grain::Rung, #[trigger] r[m])
        && covers_key(node, r[m].id.key())
    &&& forall|a: int, b: int| 0 <= a < r.len() && 0 <= b < r.len() && a != b
        ==> (#[trigger] r[a]).id.key() != (#[trigger] r[b]).id.key()
    &&& forall|a: int, b: int| 0 <= a < b < r.len() ==> first_level(#[trigger] r[a]) <= first_level(#[trigger] r[b])
    &&& forall|j: int| 0 <= j < feats.len() ==> match truncated((#[trigger] feats[j]).id@, Grain::Rung) {
        Some(k) => covers_key(node, k) ==> has_group(r, k),
        None => true,
    }
}

/// Some entry of `cats` reads `x`.
pub open spec fn has_str(cats: Seq<&str>, x: Seq<char>) -> bool {
    exists|m: int| 0 <= m < cats.len() && cats[m]@ == x
}

/// Some feature is of category `x`.
pub open spec fn has_category(feats: Seq<Feature>, x: Seq<char>) -> bool {
    exists|j: int| 0 <= j < feats.len() && feats[j].category@ == x
}

/// `rest` and `out` while a ladder is being sorted.
pub open spec fn ladder_state<'a>(
    feats: Seq<Feature>,
    node: Seq<char>,
    rest: Seq<Group<'a>>,
    out: Seq<Group<'a>>,
) -> bool {
    &&& forall|t: int| 0 <= t < rest.len() ==> group_ok(feats, Grain::Rung, #[trigger] rest[t])
    &&& strictly_sorted(group_keys(rest))
    &&& forall|m: int| 0 <= m < out.len() ==> group_ok(feats, Grain::Rung, #[trigger] out[m])
        && covers_key(node, out[m].id.key())
    &&& forall|m: int, t: int| 0 <= m < out.len() && 0 <= t < rest.len()
        ==> seq_lt((#[trigger] rest[t]).id.key(), (#[trigger] out[m]).id.key())
    &&& forall|a: int, b: int| 0 <= a < out.len() && 0 <= b < out.len() && a != b
        ==> (#[trigger] out[a]).id.key() != (#[trigger] out[b]).id.key()
    &&& forall|a: int, b: int| 0 <= a < b < out.len() ==> first_level(#[trigger] out[a]) <= first_level(#[trigger] out[b])
    &&& forall|j: int| 0 <= j < feats.len() ==> match truncated((#[trigger] feats[j]).id@, Grain::Rung) {
        Some(k) => covers_key(node, k) ==> has_group(rest, k) || has_group(out, k),
        None => true,
    }
}

impl Inventory {
    /// The ladder of a node: its rungs, bottom-up. `egp:clauses.conditional` gives
    /// A2, B1, B2, C1, C2. The rung above the current one is where a student grows next.
    pub fn ladder(&self, node: &SkillId) -> (r: Vec<Group<'_>>)
        ensures
            is_ladder(self@, node.key(), r@),
    {
        let mut rest = self.rollup(Grain::Rung);
        let mut out: Vec<Group<'_>> = Vec::new();
        proof {
            assert forall|t: int| 0 <= t < rest.len() implies group_ok(self@, Grain::Rung, #[trigger] rest@[t]) by {}
        }
        while rest.len() > 0
            invariant
                ladder_state(self@, node.key(), rest@, out@),
            decreases rest.len(),
        {
            let ghost old_rest = rest@;
            let ghost old_out = out@;
            let g = rest.pop().unwrap();
            proof {
                assert(rest@ =~= old_rest.drop_last());
                assert(g == old_rest.last());
                assert(group_ok(self@, Grain::Rung, old_rest[old_rest.len() - 1]));
                assert forall|t: int| 0 <= t < rest.len() implies group_ok(self@, Grain::Rung, #[trigger] rest@[t]) by {
                    assert(rest@[t] == old_rest[t]);
                }
                assert forall|a: int, b: int| 0 <= a < b < rest.len() implies seq_lt(
                    #[trigger] group_keys(rest@)[a], #[trigger] group_keys(rest@)[b]) by {
                    assert(group_keys(rest@)[a] == group_keys(old_rest)[a]);
                    assert(group_keys(rest@)[b] == group_keys(old_rest)[b]);
                }
            }
            if node.covers(&g.id) {
                let lv = g.features[0].level;
                let mut p: usize = 0;
                while p < out.len() && out[p].features[0].level.at_most(lv)
                    invariant
                        p <= out.len(),
                        forall|m: int| 0 <= m < out.len() ==> group_ok(self@, Grain::Rung, #[trigger] out@[m]),
                        forall|a: int| 0 <= a < p ==> first_level(#[trigger] out@[a]) <= lv.ord(),
                    decreases out.len() - p,
                {
                    p = p + 1;
                }
                proof {
                    assert(first_level(g) == lv.ord());
                }
                out.insert(p, g);
                proof {
                    assert(out@ == old_out.insert(p as int, g));
                    assert forall|m: int| 0 <= m < out.len() implies group_ok(self@, Grain::Rung, #[trigger] out@[m])
                        && covers_key(node.key(), out@[m].id.key()) by {
                        if m < p { assert(out@[m] == old_out[m]); }
                        else if m > p { assert(out@[m] == old_out[m - 1]); }
                    }
                    assert forall|m: int, t: int| 0 <= m < out.len() && 0 <= t < rest.len()
                        implies seq_lt((#[trigger] rest@[t]).id.key(), (#[trigger] out@[m]).id.key()) by {
                        assert(rest@[t] == old_rest[t]);
                        if m < p { assert(out@[m] == old_out[m]); }
                        else if m > p { assert(out@[m] == old_out[m - 1]); }
                        else {
                            assert(group_keys(old_rest)[t] == old_rest[t].id.key());
                            assert(group_keys(old_rest)[old_rest.len() - 1] == g.id.key());
                        }
                    }
                    assert forall|a: int, b: int| 0 <= a < out.len() && 0 <= b < out.len() && a != b
                        implies (#[trigger] out@[a]).id.key() != (#[trigger] out@[b]).id.key() by {
                        if a != p && b != p {
                            let a0 = if a < p { a } else { a - 1 };
                            let b0 = if b < p { b } else { b - 1 };
                            assert(out@[a] == old_out[a0]);
                            assert(out@[b] == old_out[b0]);
                        } else if a == p {
                            let b0 = if b < p { b } else { b - 1 };
                            assert(out@[b] == old_out[b0]);
                            assert(seq_lt(old_rest[old_rest.len() - 1].id.key(), old_out[b0].id.key()));
                            crate::text::lemma_seq_lt_irreflexive(g.id.key());
                        } else {
                            let a0 = if a < p { a } else { a - 1 };
                            assert(out@[a] == old_out[a0]);
                            assert(seq_lt(old_rest[old_rest.len() - 1].id.key(), old_out[a0].id.key()));
                            crate::text::lemma_seq_lt_irreflexive(g.id.key());
                        }
                    }
                    assert forall|a: int, b: int| 0 <= a < b < out.len() implies first_level(#[trigger] out@[a]) <= first_level(#[trigger] out@[b]) by {
                        if b < p {
                            assert(out@[a] == old_out[a]);
                            assert(out@[b] == old_out[b]);
                        } else if b == p {
                            assert(out@[a] == old_out[a]);
                        } else if a > p {
                            assert(out@[a] == old_out[a - 1]);
                            assert(out@[b] == old_out[b - 1]);
                        } else if a == p {
                            assert(out@[b] == old_out[b - 1]);
                            if p < old_out.len() {
                                assert(first_level(old_out[p as int]) <= first_level(old_out[b - 1]));
                            }
                        } else {
                            assert(out@[a] == old_out[a]);
                            assert(out@[b] == old_out[b - 1]);
                        }
                    }
                    assert forall|j: int| 0 <= j < self@.len() implies match truncated((#[trigger] self@[j]).id@, Grain::Rung) {
                        Some(k) => covers_key(node.key(), k) ==> has_group(rest@, k) || has_group(out@, k),
                        None => true,
                    } by {
                        if let Some(k) = truncated(self@[j].id@, Grain::Rung) {
                            if covers_key(node.key(), k) {
                                if has_group(old_rest, k) {
                                    let m = choose|m: int| 0 <= m < old_rest.len() && old_rest[m].id.key() == k;
                                    if m < old_rest.len() - 1 {
                                        assert(rest@[m] == old_rest[m]);
                                    } else {
                                        assert(out@[p as int] == g);
                                    }
                                } else {
                                    let m = choose|m: int| 0 <= m < old_out.len() && old_out[m].id.key() == k;
                                    if m < p { assert(out@[m] == old_out[m]); } else { assert(out@[m + 1] == old_out[m]); }
                                }
                            }
                        }
                    }
                }
            } else {
                proof {
                    assert forall|m: int, t: int| 0 <= m < out.len() && 0 <= t < rest.len()
                        implies seq_lt((#[trigger] rest@[t]).id.key(), (#[trigger] out@[m]).id.key()) by {
                        assert(rest@[t] == old_rest[t]);
                    }
                    assert forall|j: int| 0 <= j < self@.len() implies match truncated((#[trigger] self@[j]).id@, Grain::Rung) {
                        Some(k) => covers_key(node.key(), k) ==> has_group(rest@, k) || has_group(out@, k),
                        None => true,
                    } by {
                        if let Some(k) = truncated(self@[j].id@, Grain::Rung) {
                            if covers_key(node.key(), k) {
                                if has_group(old_rest, k) {
                                    let m = choose|m: int| 0 <= m < old_rest.len() && old_rest[m].id.key() == k;
                                    if m < old_rest.len() - 1 {
                                        assert(rest@[m] == old_rest[m]);
                                    }
                                }
                            }
                        }
                    }
                }
            }
        }
        proof {
            assert forall|j: int| 0 <= j < self@.len() implies match truncated((#[trigger] self@[j]).id@, Grain::Rung) {
                Some(k) => covers_key(node.key(), k) ==> has_group(out@, k),
                None => true,
            } by {
                if let Some(k) = truncated(self@[j].id@, Grain::Rung) {
                    if covers_key(node.key(), k) && has_group(rest@, k) {
                        let m = choose|m: int| 0 <= m < rest@.len() && rest@[m].id.key() == k;
                    }
                }
            }
        }
        out
    }
}

} // verus!

verus! {
impl Inventory {
    /// Category names, alphabetically, each once.
    pub fn categories(&self) -> (r: Vec<&str>)
        ensures
            strictly_sorted(strs(r@)),
            forall|m: int| 0 <= m < r.len() ==> has_category(self@, (#[trigger] r@[m])@),
            forall|j: int| 0 <= j < self@.len() ==> has_str(r@, (#[trigger] self@[j]).category@),
    {
        let mut out: Vec<&str> = Vec::new();
        let mut i: usize = 0;
        while i < self.features.len()
            invariant
                i <= self.features@.len(),
                self@ == self.features@,
                strictly_sorted(strs(out@)),
                forall|m: int| 0 <= m < out.len() ==> has_category(self@, (#[trigger] out@[m])@),
                forall|j: int| 0 <= j < i ==> has_str(out@, (#[trigger] self@[j]).category@),
            decreases self.features@.len() - i,
        {
            let c = self.features[i].category.as_str();
            let mut p: usize = 0;
            let mut found = false;
            while p < out.len()
                invariant_except_break
                    !found,
                invariant
                    p <= out.len(),
                    forall|a: int| 0 <= a < p ==> seq_lt((#[trigger] out@[a])@, c@),
                ensures
                    p <= out.len(),
                    forall|a: int| 0 <= a < p ==> seq_lt((#[trigger] out@[a])@, c@),
                    found ==> p < out.len() && out@[p as int]@ == c@,
                    !found ==> p == out.len() || seq_lt(c@, out@[p as int]@),
                decreases out.len() - p,
            {
                let k = compare_str(out[p], c);
                if k == 0 {
                    found = true;
                    break;
                }
                if k > 0 {
                    break;
                }
                p = p + 1;
            }
            let ghost old_out = out@;
            if !found {
                proof {
                    if p < out.len() {
                        crate::text::lemma_seq_lt_asymmetric(out@[p as int]@, c@);
                    }
                }
                out.insert(p, c);
                proof {
                    assert(out@ == old_out.insert(p as int, c));
                    assert forall|a: int, b: int| 0 <= a < b < out.len() implies seq_lt(
                        #[trigger] strs(out@)[a], #[trigger] strs(out@)[b]) by {
                        if b < p {
                            assert(strs(old_out)[a] == strs(out@)[a]);
                            assert(strs(old_out)[b] == strs(out@)[b]);
                        } else if b == p {
                            assert(out@[a] == old_out[a]);
                        } else if a > p {
                            assert(strs(old_out)[a - 1] == strs(out@)[a]);
                            assert(strs(old_out)[b - 1] == strs(out@)[b]);
                        } else if a == p {
                            assert(out@[b] == old_out[b - 1]);
                            if b - 1 > p {
                                assert(seq_lt(strs(old_out)[p as int], strs(old_out)[b - 1]));
                                crate::text::lemma_seq_lt_transitive(c@, old_out[p as int]@, old_out[b - 1]@);
                            }
                        } else {
                            assert(out@[a] == old_out[a]);
                            assert(out@[b] == old_out[b - 1]);
                            if b - 1 > p {
                                crate::text::lemma_seq_lt_transitive(old_out[a]@, c@, old_out[p as int]@);
                                assert(seq_lt(strs(old_out)[p as int], strs(old_out)[b - 1]));
                                crate::text::lemma_seq_lt_transitive(old_out[a]@, old_out[p as int]@, old_out[b - 1]@);
                            } else {
                                crate::text::lemma_seq_lt_transitive(old_out[a]@, c@, old_out[p as int]@);
                            }
                        }
                    }
                    assert forall|m: int| 0 <= m < out.len() implies has_category(self@, (#[trigger] out@[m])@) by {
                        if m < p { assert(out@[m] == old_out[m]); }
                        else if m > p { assert(out@[m] == old_out[m - 1]); }
                        else { assert(self@[i as int].category@ == c@); }
                    }
                    assert forall|j: int| 0 <= j < i implies has_str(out@, (#[trigger] self@[j]).category@) by {
                        let m = choose|m: int| 0 <= m < old_out.len() && old_out[m]@ == self@[j].category@;
                        if m < p { assert(out@[m] == old_out[m]); } else { assert(out@[m + 1] == old_out[m]); }
                    }
                    assert(out@[p as int]@ == self@[i as int].category@);
                }
            }
            i = i + 1;
        }
        out
    }
}

} // verus!

verus! {
/// No field of a split holds the separator.
pub proof fn lemma_fields_free_of_sep(s: Seq<char>, c: char)
    ensures
        forall|k: int| 0 <= k < fields(s, char_is(c)).len() ==> no_char(#[trigger] fields(s, char_is(c))[k], c),
    decreases s.len(),
{
    crate::text::lemma_fields_nonempty(s, char_is(c));
    if s.len() > 0 {
        lemma_fields_free_of_sep(s.drop_last(), c);
        crate::text::lemma_fields_nonempty(s.drop_last(), char_is(c));
        let before = fields(s.drop_last(), char_is(c));
        assert forall|k: int| 0 <= k < fields(s, char_is(c)).len() implies no_char(#[trigger] fields(s, char_is(c))[k], c) by {
            if k < before.len() - 1 {
                assert(fields(s, char_is(c))[k] == before[k]);
            } else if s.last() != c {
                assert(no_char(before[before.len() - 1], c));
                let f = before.last().push(s.last());
                assert(fields(s, char_is(c))[k] == f);
                assert forall|i: int| 0 <= i < f.len() implies f[i] != c by {
                    if i < f.len() - 1 { assert(f[i] == before.last()[i]); }
                }
            }
        }
    }
}

/// Filtering out empty sequences from a sequence that has none changes nothing.
pub proof fn lemma_filter_nonempty_id(fs: Seq<Seq<char>>)
    requires
        forall|k: int| 0 <= k < fs.len() ==> (#[trigger] fs[k]).len() > 0,
    ensures
        fs.filter(is_nonempty()) == fs,
    decreases fs.len(),
{
    reveal(Seq::filter);
    if fs.len() > 0 {
        assert forall|k: int| 0 <= k < fs.drop_last().len() implies (#[trigger] fs.drop_last()[k]).len() > 0 by {
            assert(fs.drop_last()[k] == fs[k]);
        }
        lemma_filter_nonempty_id(fs.drop_last());
        assert(fs[fs.len() - 1].len() > 0);
        assert(fs.drop_last().push(fs.last()) =~= fs);
    }
}

/// A key written in canonical form: `egp:` followed by its segments joined by
/// dots, none of them empty.
pub open spec fn canonical_key(k: Seq<char>) -> bool {
    parts_of(k).len() >= 1 && k == ns() + join(parts_of(k), '.')
}

/// The parts of a key: all non-empty and dot-free.
pub proof fn lemma_parts_clean(k: Seq<char>)
    ensures
        forall|i: int| 0 <= i < parts_of(k).len() ==> (#[trigger] parts_of(k)[i]).len() > 0 && no_char(parts_of(k)[i], '.'),
{
    if k.len() >= 4 && k.take(4) == ns() {
        let fs = fields(k.skip(4), char_is('.'));
        lemma_fields_free_of_sep(k.skip(4), '.');
        assert forall|i: int| 0 <= i < parts_of(k).len() implies (#[trigger] parts_of(k)[i]).len() > 0
            && no_char(parts_of(k)[i], '.') by {
            fs.lemma_filter_pred(is_nonempty(), i);
            assert(fs.filter(is_nonempty())[i] == parts_of(k)[i]);
            lemma_filter_subset(fs, is_nonempty(), i);
        }
    }
}

/// Each element of a filter is an element of the filtered sequence.
pub proof fn lemma_filter_subset<A>(s: Seq<A>, p: spec_fn(A) -> bool, i: int)
    requires
        0 <= i < s.filter(p).len(),
    ensures
        exists|j: int| 0 <= j < s.len() && s[j] == s.filter(p)[i],
    decreases s.len(),
{
    reveal(Seq::filter);
    if s.len() > 0 {
        let rest = s.drop_last().filter(p);
        if i < rest.len() {
            assert(s.filter(p)[i] == rest[i]);
            lemma_filter_subset(s.drop_last(), p, i);
            let j = choose|j: int| 0 <= j < s.drop_last().len() && s.drop_last()[j] == rest[i];
            assert(s[j] == s.drop_last()[j]);
        } else {
            assert(s.filter(p)[i] == s.last());
            assert(s[s.len() - 1] == s.last());
        }
    }
}

/// The parts of a canonical key written from parts `ps`.
pub proof fn lemma_parts_of_written(ps: Seq<Seq<char>>)
    requires
        ps.len() >= 1,
        forall|i: int| 0 <= i < ps.len() ==> (#[trigger] ps[i]).len() > 0 && no_char(ps[i], '.'),
    ensures
        parts_of(ns() + join(ps, '.')) == ps,
{
    let k = ns() + join(ps, '.');
    assert(k.take(4) =~= ns());
    assert(k.skip(4) =~= join(ps, '.'));
    assert forall|i: int| 0 <= i < ps.len() implies no_char(#[trigger] ps[i], '.') by {}
    crate::text::lemma_fields_of_join(ps, '.');
    lemma_filter_nonempty_id(ps);
}

/// A coarse key addresses the precise ones. For a canonical key `k` with at least
/// as many segments as `g` asks for, the key cut to `g` exists, covers `k`, is
/// itself of resolution `g`, and cutting it again to `g` leaves it unchanged.
pub proof fn lemma_truncated_covers(k: Seq<char>, g: Grain)
    requires
        canonical_key(k),
        parts_of(k).len() >= grain_segments(g),
    ensures
        truncated(k, g) is Some,
        covers_key(truncated(k, g).unwrap(), k),
        grain_of(truncated(k, g).unwrap()) == Some(g),
        truncated(truncated(k, g).unwrap(), g) == truncated(k, g),
{
    let ps = parts_of(k);
    let n = grain_segments(g);
    let t = ns() + join(ps.take(n), '.');
    lemma_parts_clean(k);
    assert forall|i: int| 0 <= i < ps.take(n).len() implies (#[trigger] ps.take(n)[i]).len() > 0
        && no_char(ps.take(n)[i], '.') by {
        assert(ps.take(n)[i] == ps[i]);
    }
    lemma_parts_of_written(ps.take(n));
    assert(parts_of(t) == ps.take(n));
    crate::text::lemma_join_prefix(ps, '.', n);
    let jt = join(ps.take(n), '.');
    let jk = join(ps, '.');
    assert(k == ns() + jk);
    if n < ps.len() {
        assert(k.take(t.len() as int) =~= ns() + jk.take(jt.len() as int));
        assert(k[t.len() as int] == jk[jt.len() as int]);
    } else {
        assert(ps.take(n) =~= ps);
    }
    assert(ps.take(n).take(n) =~= ps.take(n));
}

/// Covering is reflexive and transitive.
pub proof fn lemma_covers_preorder(a: Seq<char>, b: Seq<char>, c: Seq<char>)
    ensures
        covers_key(a, a),
        covers_key(a, b) && covers_key(b, c) ==> covers_key(a, c),
{
    if covers_key(a, b) && covers_key(b, c) && a != b && b != c {
        assert(c.take(a.len() as int) =~= c.take(b.len() as int).take(a.len() as int));
        assert(c[a.len() as int] == c.take(b.len() as int)[a.len() as int]);
    }
}

} // verus!

verus! {
/// Total number of features over the groups.
pub open spec fn total_len<'a>(r: Seq<Group<'a>>) -> int
    decreases r.len(),
{
    if r.len() == 0 {
        0
    } else {
        total_len(r.drop_last()) + r.last().features@.len()
    }
}

pub open spec fn has_key_at(g: Grain) -> spec_fn(Feature) -> bool {
    |f: Feature| truncated(f.id@, g) is Some
}

/// How many features fall into the groups keyed by `ks`, counted group by group.
pub open spec fn count_by_keys(feats: Seq<Feature>, g: Grain, ks: Seq<Seq<char>>) -> int
    decreases ks.len(),
{
    if ks.len() == 0 {
        0
    } else {
        count_by_keys(feats, g, ks.drop_last()) + feats.filter(in_group(g, ks.last())).len()
    }
}

/// How many of `ks` equal `x`.
pub open spec fn occurrences(ks: Seq<Seq<char>>, x: Option<Seq<char>>) -> int
    decreases ks.len(),
{
    if ks.len() == 0 {
        0
    } else {
        occurrences(ks.drop_last(), x) + if x == Some(ks.last()) { 1int } else { 0int }
    }
}

proof fn lemma_count_push(feats: Seq<Feature>, f: Feature, g: Grain, ks: Seq<Seq<char>>)
    ensures
        count_by_keys(feats.push(f), g, ks) == count_by_keys(feats, g, ks) + occurrences(ks, truncated(f.id@, g)),
    decreases ks.len(),
{
    if ks.len() > 0 {
        lemma_count_push(feats, f, g, ks.drop_last());
        lemma_filter_push(feats, f, in_group(g, ks.last()));
    }
}

proof fn lemma_occurrences_distinct(ks: Seq<Seq<char>>, x: Seq<char>)
    requires
        strictly_sorted(ks),
    ensures
        occurrences(ks, Some(x)) == if ks.contains(x) { 1int } else { 0int },
    decreases ks.len(),
{
    if ks.len() > 0 {
        let init = ks.drop_last();
        assert forall|a: int, b: int| 0 <= a < b < init.len() implies seq_lt(#[trigger] init[a], #[trigger] init[b]) by {
            assert(init[a] == ks[a]);
            assert(init[b] == ks[b]);
        }
        lemma_occurrences_distinct(init, x);
        if x == ks.last() {
            if init.contains(x) {
                let a = choose|a: int| 0 <= a < init.len() && init[a] == x;
                assert(seq_lt(ks[a], ks[ks.len() - 1]));
                crate::text::lemma_seq_lt_irreflexive(x);
            }
            assert(ks[ks.len() - 1] == x);
        } else {
            if ks.contains(x) {
                let a = choose|a: int| 0 <= a < ks.len() && ks[a] == x;
                assert(init[a] == x);
            }
            if init.contains(x) {
                let a = choose|a: int| 0 <= a < init.len() && init[a] == x;
                assert(ks[a] == x);
            }
        }
    }
}

proof fn lemma_count_total(feats: Seq<Feature>, g: Grain, ks: Seq<Seq<char>>)
    requires
        strictly_sorted(ks),
        forall|j: int| 0 <= j < feats.len() ==> match truncated((#[trigger] feats[j]).id@, g) {
            Some(k) => ks.contains(k),
            None => true,
        },
    ensures
        count_by_keys(feats, g, ks) == feats.filter(has_key_at(g)).len(),
    decreases feats.len(),
{
    if feats.len() == 0 {
        lemma_count_zero(feats, g, ks);
        reveal(Seq::filter);
    } else {
        let init = feats.drop_last();
        let f = feats.last();
        assert forall|j: int| 0 <= j < init.len() implies match truncated((#[trigger] init[j]).id@, g) {
            Some(k) => ks.contains(k),
            None => true,
        } by {
            assert(init[j] == feats[j]);
        }
        lemma_count_total(init, g, ks);
        assert(init.push(f) =~= feats);
        lemma_count_push(init, f, g, ks);
        lemma_filter_push(init, f, has_key_at(g));
        assert(feats[feats.len() - 1] == f);
        match truncated(f.id@, g) {
            Some(k) => {
                lemma_occurrences_distinct(ks, k);
            },
            None => {
                lemma_occurrences_none(ks);
            },
        }
    }
}

proof fn lemma_occurrences_none(ks: Seq<Seq<char>>)
    ensures
        occurrences(ks, None) == 0,
    decreases ks.len(),
{
    if ks.len() > 0 {
        lemma_occurrences_none(ks.drop_last());
    }
}

proof fn lemma_count_zero(feats: Seq<Feature>, g: Grain, ks: Seq<Seq<char>>)
    requires
        feats.len() == 0,
    ensures
        count_by_keys(feats, g, ks) == 0,
    decreases ks.len(),
{
    reveal(Seq::filter);
    if ks.len() > 0 {
        lemma_count_zero(feats, g, ks.drop_last());
    }
}

proof fn lemma_total_is_count<'a>(feats: Seq<Feature>, g: Grain, r: Seq<Group<'a>>)
    requires
        forall|m: int| 0 <= m < r.len() ==> derefs((#[trigger] r[m]).features@) == feats.filter(
            in_group(g, r[m].id.key()),
        ),
    ensures
        total_len(r) == count_by_keys(feats, g, group_keys(r)),
    decreases r.len(),
{
    if r.len() > 0 {
        let init = r.drop_last();
        assert forall|m: int| 0 <= m < init.len() implies derefs((#[trigger] init[m]).features@) == feats.filter(
            in_group(g, init[m].id.key())) by {
            assert(init[m] == r[m]);
        }
        lemma_total_is_count(feats, g, init);
        assert(group_keys(r).drop_last() =~= group_keys(init));
        assert(derefs(r[r.len() - 1].features@).len() == r.last().features@.len());
    }
}

/// Rolling up neither loses nor duplicates: at every resolution the groups hold,
/// between them, exactly as many features as have a key at that resolution.
pub proof fn lemma_rollup_conserves<'a>(feats: Seq<Feature>, g: Grain, r: Seq<Group<'a>>)
    requires
        is_rollup(feats, g, r),
    ensures
        total_len(r) == feats.filter(has_key_at(g)).len(),
{
    lemma_total_is_count(feats, g, r);
    assert forall|j: int| 0 <= j < feats.len() implies match truncated((#[trigger] feats[j]).id@, g) {
        Some(k) => group_keys(r).contains(k),
        None => true,
    } by {
        if let Some(k) = truncated(feats[j].id@, g) {
            let m = choose|m: int| 0 <= m < r.len() && r[m].id.key() == k;
            assert(group_keys(r)[m] == k);
        }
    }
    lemma_count_total(feats, g, group_keys(r));
}

} // verus!

verus! {

pub open spec fn record_line() -> spec_fn(Seq<char>) -> bool {
    |l: Seq<char>| trim(l).len() > 0
}

/// The records of a JSON-lines text: its lines that are not blank, in order.
/// Each is one serialized [`Feature`].
pub fn jsonl_records(text: &str) -> (r: Vec<String>)
    ensures
        views(r@) == text_lines(text@).filter(record_line()),
{
    let ls = lines_of(text);
    let ghost all = views(ls@);
    let mut out: Vec<String> = Vec::new();
    proof {
        reveal(Seq::filter);
        assert(all.take(0) =~= Seq::<Seq<char>>::empty());
        assert(all.len() == ls@.len());
    }
    for k in 0..ls.len()
        invariant
            all == views(ls@),
            all == text_lines(text@),
            all.len() == ls@.len(),
            views(out@) == all.take(k as int).filter(record_line()),
    {
        proof {
            assert(all[k as int] == ls@[k as int]@);
            assert(all.take(k + 1) =~= all.take(k as int).push(all[k as int]));
            lemma_filter_push(all.take(k as int), all[k as int], record_line());
        }
        let t = trim_str(ls[k].as_str());
        if !t.as_str().is_empty() {
            let ghost prev = views(out@);
            out.push(ls[k].clone());
            proof {
                assert(views(out@) =~= prev.push(all[k as int]));
            }
        }
    }
    proof {
        assert(all.take(ls.len() as int) =~= all);
    }
    out
}

} // verus!

verus! {

/// The cumulative slice up to the top of the scale is the whole inventory, in
/// order: every construction has a level at most `C2`.
pub proof fn lemma_up_to_top_is_all(feats: Seq<Feature>)
    ensures
        feats.filter(up_to_pred(Cefr::C2)) == feats,
    decreases feats.len(),
{
    reveal(Seq::filter);
    if feats.len() > 0 {
        lemma_up_to_top_is_all(feats.drop_last());
        assert(up_to_pred(Cefr::C2)(feats.last()));
        assert(feats.drop_last().push(feats.last()) =~= feats);
    }
}

} // verus!
