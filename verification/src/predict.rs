//! The discrete side of the knowledge model: where a probability came from,
//! what to do with concepts the catalog lacks, the model's errors, and the
//! version of the stored state.
use vstd::prelude::*;

use crate::concept::ConceptId;
use crate::text::{
    compare_str, push_str, lemma_seq_lt_asymmetric, lemma_seq_lt_irreflexive, lemma_seq_lt_total, lemma_seq_lt_transitive,
    seq_lt,
};

verus! {

/// Where a probability came from, so that a report explains a number instead
/// of only naming it.
#[derive(Debug, Clone, Copy, PartialEq, Eq, Hash, Structural)]
pub enum ProbabilitySource {
    /// The concept's own history.
    Concept,
    /// The aggregate of a group (family, level, topic).
    Group,
    /// The aggregate of a kind of vocabulary.
    Kind,
    /// The learner's overall statistics.
    Overall,
    /// The concept's prior from the catalog.
    GlobalPrior,
    /// The configured default: nothing is known at all.
    DefaultPrior,
}

pub open spec fn label(source: ProbabilitySource) -> Seq<char> {
    match source {
        ProbabilitySource::Concept => seq!['c', 'o', 'n', 'c', 'e', 'p', 't', ' ', 'h', 'i', 's', 't', 'o', 'r', 'y'],
        ProbabilitySource::Group => seq!['g', 'r', 'o', 'u', 'p', ' ', 'f', 'a', 'l', 'l', 'b', 'a', 'c', 'k'],
        ProbabilitySource::Kind => seq!['k', 'i', 'n', 'd', ' ', 'f', 'a', 'l', 'l', 'b', 'a', 'c', 'k'],
        ProbabilitySource::Overall => seq!['o', 'v', 'e', 'r', 'a', 'l', 'l', ' ', 'h', 'i', 's', 't', 'o', 'r', 'y'],
        ProbabilitySource::GlobalPrior => seq!['c', 'a', 't', 'a', 'l', 'o', 'g', ' ', 'p', 'r', 'i', 'o', 'r'],
        ProbabilitySource::DefaultPrior => seq!['d', 'e', 'f', 'a', 'u', 'l', 't', ' ', 'p', 'r', 'i', 'o', 'r'],
    }
}

/// The human-readable name of a probability source, as reports print it.
pub fn source_label(source: ProbabilitySource) -> (r: &'static str)
    ensures
        r@ == label(source),
{
    proof {
        reveal_strlit("concept history");
        reveal_strlit("group fallback");
        reveal_strlit("kind fallback");
        reveal_strlit("overall history");
        reveal_strlit("catalog prior");
        reveal_strlit("default prior");
    }
    match source {
        ProbabilitySource::Concept => "concept history",
        ProbabilitySource::Group => "group fallback",
        ProbabilitySource::Kind => "kind fallback",
        ProbabilitySource::Overall => "overall history",
        ProbabilitySource::GlobalPrior => "catalog prior",
        ProbabilitySource::DefaultPrior => "default prior",
    }
}

/// What to do when a requirement names a concept the catalog does not have.
#[derive(Debug, Clone, Copy, PartialEq, Eq, Hash, Structural)]
pub enum MissingConcept {
    /// Return an error: for batches and imports, a hole in the catalog is a
    /// data bug.
    Fail,
    /// Use the default prior and mark the source `DefaultPrior`: one unknown
    /// unit is no reason to show a learner no estimate.
    UsePrior,
    /// Skip the requirement, listing it in the diagnostics.
    Skip,
}

/// What went wrong with the lexical state or a prediction.
#[derive(Debug, Clone, PartialEq, Eq)]
pub enum LexError {
    /// The concept is not in the catalog and the configuration says to stop
    /// (`MissingConcept::Fail`).
    UnknownConcept(ConceptId),
    /// A probability outside `[0, 1]`, or not finite. The field says whose.
    InvalidProbability { field: &'static str, value: String },
    /// A weight out of range, or not finite.
    InvalidWeight { field: &'static str, value: String },
    /// The state was stored by a schema this code does not understand.
    IncompatibleSchema { found: u16, supported: u16 },
    /// The outside extractor could not mark up the text.
    Extractor(String),
    /// The outside evaluator could not analyse the attempt.
    Evaluator(String),
    /// Nothing to predict: the text has no lexical requirement.
    EmptyRequirements,
    /// The configuration fails its own validation.
    Config(String),
}

/// The version of the state's schema; it grows with any incompatible change.
pub const SCHEMA_VERSION: u16 = 1;

/// Whether a state stored with schema `found` can be read by this code: a
/// foreign version must not be accepted silently.
pub fn check_schema_version(found: u16) -> (r: Result<(), LexError>)
    ensures
        r is Ok <==> found == SCHEMA_VERSION,
        r is Err ==> r == Err::<(), LexError>(LexError::IncompatibleSchema { found, supported: SCHEMA_VERSION }),
{
    if found == SCHEMA_VERSION {
        return Ok(());
    }
    Err(LexError::IncompatibleSchema { found, supported: SCHEMA_VERSION })
}

/// What to do with a concept the catalog was asked for (`found`), by the
/// policy for missing ones: the catalog decides nothing, the configuration does.
/// `Ok(None)`: skip it. `Ok(Some(None))`: count it, with no catalog entry (and
/// so no groups). `Ok(Some(Some(c)))`: count it with its entry.
pub fn resolve<T>(id: &ConceptId, found: Option<T>, policy: MissingConcept) -> (r: Result<Option<Option<T>>, LexError>)
    ensures
        found is Some ==> r == Ok::<Option<Option<T>>, LexError>(Some(found)),
        found is None ==> match policy {
            MissingConcept::Fail => r matches Err(LexError::UnknownConcept(c)) && c.0@ == id.0@,
            MissingConcept::UsePrior => r == Ok::<Option<Option<T>>, LexError>(Some(None)),
            MissingConcept::Skip => r == Ok::<Option<Option<T>>, LexError>(None),
        },
{
    match found {
        Some(c) => Ok(Some(Some(c))),
        None => match policy {
            MissingConcept::Fail => Err(LexError::UnknownConcept(ConceptId(id.0.clone()))),
            MissingConcept::UsePrior => Ok(Some(None)),
            MissingConcept::Skip => Ok(None),
        },
    }
}

/// What orders observations: when they were made (seconds since the epoch,
/// then nanoseconds), then the concept's id.
#[derive(Debug, Clone, PartialEq, Eq)]
pub struct ObservationKey {
    pub seconds: i64,
    pub nanos: u32,
    pub concept_id: ConceptId,
}

/// `a` comes strictly before `b`: earlier, or at the same instant with a
/// smaller id.
pub open spec fn key_lt(a: ObservationKey, b: ObservationKey) -> bool {
    a.seconds < b.seconds || (a.seconds == b.seconds && (a.nanos < b.nanos
        || (a.nanos == b.nanos && seq_lt(a.concept_id.0@, b.concept_id.0@))))
}

/// Observation `x` is handled before observation `y`: its key is smaller, or
/// the keys are equal and it was delivered first.
pub open spec fn handled_before(keys: Seq<ObservationKey>, x: int, y: int) -> bool {
    key_lt(keys[x], keys[y]) || (!key_lt(keys[y], keys[x]) && x < y)
}

/// `order` holds index `m`.
pub open spec fn lists_index(order: Seq<usize>, m: int) -> bool {
    exists|a: int| 0 <= a < order.len() && order[a] == m
}

/// `order` lists every index of `keys` once, in the order they are handled.
pub open spec fn is_time_order(keys: Seq<ObservationKey>, order: Seq<usize>) -> bool {
    &&& order.len() == keys.len()
    &&& forall|a: int| 0 <= a < order.len() ==> (#[trigger] order[a]) < keys.len()
    &&& forall|a: int, b: int| 0 <= a < b < order.len() ==> handled_before(keys, #[trigger] order[a] as int, #[trigger] order[b] as int)
}

proof fn lemma_key_lt_transitive(a: ObservationKey, b: ObservationKey, c: ObservationKey)
    ensures
        key_lt(a, b) && key_lt(b, c) ==> key_lt(a, c),
        !key_lt(b, a) && !key_lt(c, b) ==> !key_lt(c, a),
        !key_lt(b, a) && key_lt(b, c) ==> key_lt(a, c),
        key_lt(a, b) && !key_lt(c, b) ==> key_lt(a, c),
{
    lemma_seq_lt_transitive(a.concept_id.0@, b.concept_id.0@, c.concept_id.0@);
    lemma_seq_lt_transitive(c.concept_id.0@, b.concept_id.0@, a.concept_id.0@);
    lemma_seq_lt_total(a.concept_id.0@, b.concept_id.0@);
    lemma_seq_lt_total(b.concept_id.0@, c.concept_id.0@);
    lemma_seq_lt_total(a.concept_id.0@, c.concept_id.0@);
    lemma_seq_lt_asymmetric(a.concept_id.0@, b.concept_id.0@);
    lemma_seq_lt_asymmetric(b.concept_id.0@, c.concept_id.0@);
    lemma_seq_lt_asymmetric(a.concept_id.0@, c.concept_id.0@);
    lemma_seq_lt_irreflexive(a.concept_id.0@);
}

fn key_less(a: &ObservationKey, b: &ObservationKey) -> (r: bool)
    ensures
        r == key_lt(*a, *b),
{
    if a.seconds != b.seconds {
        return a.seconds < b.seconds;
    }
    if a.nanos != b.nanos {
        return a.nanos < b.nanos;
    }
    compare_str(a.concept_id.as_str(), b.concept_id.as_str()) < 0
}

/// The order in which observations are applied: by time, then by concept id,
/// and in delivery order where both agree. Attempts arrive from a broker out
/// of order, and the result must not depend on that. Gives the indices of
/// `keys` in that order.
pub fn order_by_time(keys: &[ObservationKey]) -> (r: Vec<usize>)
    ensures
        is_time_order(keys@, r@),
        forall|a: int, b: int| 0 <= a < b < r.len() ==> r@[a] != r@[b],
        forall|m: int| 0 <= m < keys@.len() ==> #[trigger] lists_index(r@, m),
{
    let mut out: Vec<usize> = Vec::new();
    let mut i: usize = 0;
    while i < keys.len()
        invariant
            i <= keys@.len(),
            out.len() == i,
            forall|a: int| 0 <= a < out.len() ==> (#[trigger] out@[a]) < i,
            forall|a: int, b: int| 0 <= a < b < out.len() ==> handled_before(keys@, #[trigger] out@[a] as int, #[trigger] out@[b] as int),
            forall|m: int| 0 <= m < i ==> #[trigger] lists_index(out@, m),
        decreases keys@.len() - i,
    {
        let mut p: usize = 0;
        while p < out.len() && !key_less(&keys[i], &keys[out[p]])
            invariant
                p <= out.len(),
                i < keys@.len(),
                forall|a: int| 0 <= a < out.len() ==> (#[trigger] out@[a]) < i,
                forall|a: int| 0 <= a < p ==> !key_lt(keys@[i as int], keys@[#[trigger] out@[a] as int]),
            decreases out.len() - p,
        {
            p = p + 1;
        }
        let ghost old_out = out@;
        out.insert(p, i);
        proof {
            assert(out@ == old_out.insert(p as int, i));
            assert forall|m: int| 0 <= m < i + 1 implies #[trigger] lists_index(out@, m) by {
                if m == i {
                    assert(out@[p as int] == m);
                } else {
                    assert(lists_index(old_out, m));
                    let a = choose|a: int| 0 <= a < old_out.len() && old_out[a] == m;
                    if a < p {
                        assert(out@[a] == m);
                    } else {
                        assert(out@[a + 1] == m);
                    }
                }
            }
            assert forall|a: int, b: int| 0 <= a < b < out.len() implies handled_before(keys@, #[trigger] out@[a] as int, #[trigger] out@[b] as int) by {
                let ki = keys@[i as int];
                if b < p {
                    assert(out@[a] == old_out[a]);
                    assert(out@[b] == old_out[b]);
                } else if b == p {
                    assert(out@[a] == old_out[a]);
                    assert(!key_lt(ki, keys@[old_out[a] as int]));
                } else if a == p {
                    assert(out@[b] == old_out[b - 1]);
                    let kp = keys@[old_out[p as int] as int];
                    let kb = keys@[old_out[b - 1] as int];
                    assert(key_lt(ki, kp));
                    if b - 1 > p {
                        assert(handled_before(keys@, old_out[p as int] as int, old_out[b - 1] as int));
                        lemma_key_lt_transitive(ki, kp, kb);
                    }
                } else if a > p {
                    assert(out@[a] == old_out[a - 1]);
                    assert(out@[b] == old_out[b - 1]);
                } else {
                    assert(out@[a] == old_out[a]);
                    assert(out@[b] == old_out[b - 1]);
                }
            }
        }
        i = i + 1;
    }
    proof {
        assert forall|a: int, b: int| 0 <= a < b < out.len() implies out@[a] != out@[b] by {
            assert(handled_before(keys@, out@[a] as int, out@[b] as int));
            if out@[a] == out@[b] {
                lemma_key_lt_transitive(keys@[out@[a] as int], keys@[out@[a] as int], keys@[out@[a] as int]);
                lemma_seq_lt_irreflexive(keys@[out@[a] as int].concept_id.0@);
            }
        }
    }
    out
}

/// Two keys are the same: same instant, same id.
pub open spec fn same_key(x: ObservationKey, y: ObservationKey) -> bool {
    x.seconds == y.seconds && x.nanos == y.nanos && x.concept_id.0@ == y.concept_id.0@
}

/// No two observations share a key.
pub open spec fn keys_distinct(ks: Seq<ObservationKey>) -> bool {
    forall|a: int, b: int| 0 <= a < ks.len() && 0 <= b < ks.len() && a != b
        ==> key_lt(#[trigger] ks[a], #[trigger] ks[b]) || key_lt(ks[b], ks[a])
}

/// `k2` is `k1` delivered in another order: `k2[i]` is `k1[perm[i]]`, and
/// `perm` is a one-to-one map of the positions onto themselves.
pub open spec fn is_rearrangement(k1: Seq<ObservationKey>, k2: Seq<ObservationKey>, perm: Seq<int>) -> bool {
    &&& k2.len() == k1.len()
    &&& perm.len() == k1.len()
    &&& forall|i: int| 0 <= i < perm.len() ==> 0 <= #[trigger] perm[i] < k1.len() && k2[i] == k1[perm[i]]
    &&& forall|i: int, j: int| 0 <= i < j < perm.len() ==> #[trigger] perm[i] != #[trigger] perm[j]
    &&& forall|m: int| 0 <= m < k1.len() ==> #[trigger] reaches(perm, m)
}

/// Some position of `perm` maps to `m`.
pub open spec fn reaches(perm: Seq<int>, m: int) -> bool {
    exists|i: int| 0 <= i < perm.len() && perm[i] == m
}

/// The keys in the order they are handled.
pub open spec fn handled_keys(ks: Seq<ObservationKey>, order: Seq<usize>) -> Seq<ObservationKey> {
    order.map_values(|i: usize| ks[i as int])
}

/// What [`order_by_time`] gives for `ks`.
pub open spec fn ordering_of(ks: Seq<ObservationKey>, order: Seq<usize>) -> bool {
    &&& is_time_order(ks, order)
    &&& forall|a: int, b: int| 0 <= a < b < order.len() ==> order[a] != order[b]
    &&& forall|m: int| 0 <= m < ks.len() ==> #[trigger] lists_index(order, m)
}

pub open spec fn key_sorted(s: Seq<ObservationKey>) -> bool {
    forall|a: int, b: int| 0 <= a < b < s.len() ==> key_lt(#[trigger] s[a], #[trigger] s[b])
}

pub open spec fn has_same_key(s: Seq<ObservationKey>, x: ObservationKey) -> bool {
    exists|j: int| 0 <= j < s.len() && same_key(#[trigger] s[j], x)
}

proof fn lemma_key_lt_irreflexive(x: ObservationKey)
    ensures
        !key_lt(x, x),
{
    lemma_seq_lt_irreflexive(x.concept_id.0@);
}

proof fn lemma_key_lt_asymmetric(x: ObservationKey, y: ObservationKey)
    ensures
        key_lt(x, y) ==> !key_lt(y, x),
{
    lemma_seq_lt_asymmetric(x.concept_id.0@, y.concept_id.0@);
}

/// Two strictly sorted sequences of keys with the same keys are the same,
/// position by position.
proof fn lemma_sorted_keys_unique(a: Seq<ObservationKey>, b: Seq<ObservationKey>)
    requires
        key_sorted(a),
        key_sorted(b),
        forall|j: int| 0 <= j < a.len() ==> has_same_key(b, #[trigger] a[j]),
        forall|j: int| 0 <= j < b.len() ==> has_same_key(a, #[trigger] b[j]),
    ensures
        a.len() == b.len(),
        forall|j: int| 0 <= j < a.len() ==> same_key(#[trigger] a[j], b[j]),
    decreases a.len(),
{
    if a.len() == 0 {
        if b.len() > 0 {
            assert(has_same_key(a, b[0]));
        }
    } else if b.len() == 0 {
        assert(has_same_key(b, a[0]));
    } else {
        assert(has_same_key(b, a[0]));
        assert(has_same_key(a, b[0]));
        let i = choose|j: int| 0 <= j < b.len() && same_key(#[trigger] b[j], a[0]);
        let j = choose|j: int| 0 <= j < a.len() && same_key(#[trigger] a[j], b[0]);
        if i > 0 && j > 0 {
            assert(key_lt(b[0], b[i]));
            assert(key_lt(a[0], a[j]));
            lemma_key_lt_asymmetric(a[0], b[0]);
            assert(false);
        }
        assert(same_key(a[0], b[0]));
        let ra = a.drop_first();
        let rb = b.drop_first();
        assert forall|x: int, y: int| 0 <= x < y < ra.len() implies key_lt(#[trigger] ra[x], #[trigger] ra[y]) by {
            assert(ra[x] == a[x + 1]);
            assert(ra[y] == a[y + 1]);
        }
        assert forall|x: int, y: int| 0 <= x < y < rb.len() implies key_lt(#[trigger] rb[x], #[trigger] rb[y]) by {
            assert(rb[x] == b[x + 1]);
            assert(rb[y] == b[y + 1]);
        }
        assert forall|x: int| 0 <= x < ra.len() implies has_same_key(rb, #[trigger] ra[x]) by {
            assert(ra[x] == a[x + 1]);
            assert(key_lt(a[0], a[x + 1]));
            assert(has_same_key(b, a[x + 1]));
            let y = choose|y: int| 0 <= y < b.len() && same_key(#[trigger] b[y], a[x + 1]);
            if y == 0 {
                assert(key_lt(a[x + 1], a[x + 1]));
                lemma_key_lt_irreflexive(a[x + 1]);
            }
            assert(rb[y - 1] == b[y]);
        }
        assert forall|x: int| 0 <= x < rb.len() implies has_same_key(ra, #[trigger] rb[x]) by {
            assert(rb[x] == b[x + 1]);
            assert(key_lt(b[0], b[x + 1]));
            assert(has_same_key(a, b[x + 1]));
            let y = choose|y: int| 0 <= y < a.len() && same_key(#[trigger] a[y], b[x + 1]);
            if y == 0 {
                assert(key_lt(b[x + 1], b[x + 1]));
                lemma_key_lt_irreflexive(b[x + 1]);
            }
            assert(ra[y - 1] == a[y]);
        }
        lemma_sorted_keys_unique(ra, rb);
        assert forall|x: int| 0 <= x < a.len() implies same_key(#[trigger] a[x], b[x]) by {
            if x > 0 {
                assert(ra[x - 1] == a[x]);
                assert(rb[x - 1] == b[x]);
            }
        }
    }
}

/// With no two observations sharing a key, the handled order is by key.
proof fn lemma_distinct_keys_sorted(ks: Seq<ObservationKey>, order: Seq<usize>)
    requires
        keys_distinct(ks),
        ordering_of(ks, order),
    ensures
        key_sorted(handled_keys(ks, order)),
{
    let hk = handled_keys(ks, order);
    assert forall|a: int, b: int| 0 <= a < b < hk.len() implies key_lt(#[trigger] hk[a], #[trigger] hk[b]) by {
        assert(handled_before(ks, order[a] as int, order[b] as int));
        assert(order[a] != order[b]);
        assert(key_lt(ks[order[a] as int], ks[order[b] as int]) || key_lt(ks[order[b] as int], ks[order[a] as int]));
    }
}

/// Delivery order does not change the order observations are handled in: a
/// batch delivered in another order, no two observations sharing a key, is
/// handled in the same sequence of keys.
pub proof fn lemma_delivery_order_ignored(
    k1: Seq<ObservationKey>,
    k2: Seq<ObservationKey>,
    perm: Seq<int>,
    o1: Seq<usize>,
    o2: Seq<usize>,
)
    requires
        keys_distinct(k1),
        is_rearrangement(k1, k2, perm),
        ordering_of(k1, o1),
        ordering_of(k2, o2),
    ensures
        handled_keys(k1, o1).len() == handled_keys(k2, o2).len(),
        forall|j: int| 0 <= j < handled_keys(k1, o1).len() ==> same_key(#[trigger] handled_keys(k1, o1)[j], handled_keys(k2, o2)[j]),
{
    assert forall|a: int, b: int| 0 <= a < k2.len() && 0 <= b < k2.len() && a != b
        implies key_lt(#[trigger] k2[a], #[trigger] k2[b]) || key_lt(k2[b], k2[a]) by {
        assert(perm[a] != perm[b]) by {
            if a < b {
                assert(perm[a] != perm[b]);
            } else {
                assert(perm[b] != perm[a]);
            }
        }
        assert(k2[a] == k1[perm[a]]);
        assert(k2[b] == k1[perm[b]]);
    }
    lemma_distinct_keys_sorted(k1, o1);
    lemma_distinct_keys_sorted(k2, o2);
    let h1 = handled_keys(k1, o1);
    let h2 = handled_keys(k2, o2);
    assert forall|j: int| 0 <= j < h1.len() implies has_same_key(h2, #[trigger] h1[j]) by {
        let m = o1[j] as int;
        assert(0 <= m < k1.len());
        assert(reaches(perm, m));
        let i = choose|i: int| 0 <= i < perm.len() && perm[i] == m;
        assert(k2[i] == k1[m]);
        assert(lists_index(o2, i));
        let x = choose|x: int| 0 <= x < o2.len() && o2[x] == i;
        assert(h2[x] == k2[i]);
        assert(same_key(h2[x], h1[j]));
    }
    assert forall|j: int| 0 <= j < h2.len() implies has_same_key(h1, #[trigger] h2[j]) by {
        let i = o2[j] as int;
        assert(0 <= i < k2.len());
        let m = perm[i];
        assert(h2[j] == k1[m]);
        assert(lists_index(o1, m));
        let x = choose|x: int| 0 <= x < o1.len() && o1[x] == m;
        assert(h1[x] == k1[m]);
        assert(same_key(h1[x], h2[j]));
    }
    lemma_sorted_keys_unique(h1, h2);
}

/// One line per id, `- ` before and a newline after each.
pub open spec fn id_lines(ids: Seq<ConceptId>) -> Seq<char>
    decreases ids.len(),
{
    if ids.len() == 0 {
        Seq::empty()
    } else {
        id_lines(ids.drop_last()) + "- "@ + ids.last().0@ + "\n"@
    }
}

/// The report's section on concepts skipped for want of a catalog entry:
/// nothing when there are none.
pub open spec fn skipped_section(ids: Seq<ConceptId>) -> Seq<char> {
    if ids.len() == 0 {
        Seq::empty()
    } else {
        "\nSkipped (absent from catalog):\n"@ + id_lines(ids)
    }
}

/// Append to a report the section on skipped concepts.
pub fn push_skipped(out: &mut String, skipped: &[ConceptId])
    ensures
        final(out)@ == old(out)@ + skipped_section(skipped@),
{
    if skipped.len() == 0 {
        proof {
            assert(old(out)@ + skipped_section(skipped@) =~= old(out)@);
        }
        return;
    }
    let ghost start = out@;
    push_str(out, "\nSkipped (absent from catalog):\n");
    let ghost head = out@;
    let mut k: usize = 0;
    proof {
        assert(id_lines(skipped@.take(0)) =~= Seq::<char>::empty());
        assert(out@ =~= head + id_lines(skipped@.take(0)));
    }
    while k < skipped.len()
        invariant
            k <= skipped@.len(),
            head == start + "\nSkipped (absent from catalog):\n"@,
            out@ == head + id_lines(skipped@.take(k as int)),
        decreases skipped@.len() - k,
    {
        push_str(out, "- ");
        push_str(out, skipped[k].as_str());
        push_str(out, "\n");
        proof {
            assert(skipped@.take(k + 1).drop_last() =~= skipped@.take(k as int));
            assert(skipped@.take(k + 1).last() == skipped@[k as int]);
            assert(out@ =~= head + id_lines(skipped@.take(k + 1)));
        }
        k = k + 1;
    }
    proof {
        assert(skipped@.take(k as int) =~= skipped@);
        assert(out@ =~= start + skipped_section(skipped@));
    }
}

} // verus!
