//! The library's cross-cutting guarantees, stated as proof functions over
//! the specifications that the executable contracts are written against.

use vstd::prelude::*;
use crate::{DocId, Score};
use crate::term::Term;
use crate::postings::{has_doc, score_of};
use crate::segment::SegmentReader;
use crate::scorer::Scorer;
use crate::weight::Weight;

verus! {

/// Monotonicity: across successive successful advances of one scorer, the
/// documents come in strictly increasing order — the stream a well-formed
/// scorer enumerates is strictly increasing at every pair of positions.
pub proof fn lemma_scorer_monotonic(s: Scorer, i: int, j: int)
    requires
        s.wf(),
        0 <= i < j < s.full_seq().len(),
    ensures
        s.full_seq()[i].doc < s.full_seq()[j].doc,
{
}

/// Count consistency: the count a weight reports for a segment equals the
/// number of successful advances a freshly built scorer for that weight and
/// segment admits, which is the length of its match stream.
pub proof fn lemma_count_consistency(w: Weight, seg: SegmentReader, s: Scorer)
    requires
        seg.wf(),
        s.wf(),
        s.full_seq() == w.matches(seg),
        s.advances() == 0,
    ensures
        w.matches(seg).len() == s.full_seq().len() - s.advances(),
{
}

/// Determinism: two scorers built from the same weight and the same segment
/// are observably identical — same stream, same position, same state.
pub proof fn lemma_scorer_determinism(w: Weight, seg: SegmentReader, s1: Scorer, s2: Scorer)
    requires
        seg.wf(),
        s1.full_seq() == w.matches(seg),
        s2.full_seq() == w.matches(seg),
        s1.advances() == 0,
        s2.advances() == 0,
        !s1.is_positioned(),
        !s2.is_positioned(),
    ensures
        s1.full_seq() == s2.full_seq(),
        s1.advances() == s2.advances(),
        s1.is_positioned() == s2.is_positioned(),
{
}

/// Overwrite semantics: recording a second score for the same term under the
/// same document leaves only the later score — insertion into a map is
/// last-write-wins.
pub proof fn lemma_add_term_overwrites(
    m: Map<(int, Seq<u8>), Score>,
    key: (int, Seq<u8>),
    s1: Score,
    s2: Score,
)
    ensures
        m.insert(key, s1).insert(key, s2) == m.insert(key, s2),
{
    assert(m.insert(key, s1).insert(key, s2) =~= m.insert(key, s2));
}

/// Absent-term zero-match: a term weight over a segment that does not index
/// its term matches no document at all, so its count is zero and its scorer
/// is exhausted by the first advance.
pub proof fn lemma_absent_term_zero_matches(seg: SegmentReader, t: Term)
    requires
        seg.wf(),
        !seg.has_term(t@),
    ensures
        Weight::Term(t).matches(seg).len() == 0,
{
}

/// Composite propagation: a boolean-and weight's ledger report carries both
/// children's contributions.  For a document both term children match, the
/// resulting contributions hold both terms, each with its own score (when the
/// two children carry the same term, the right child's — equal — score is the
/// one left).
pub proof fn lemma_and_propagates_both(
    a: Box<Weight>,
    b: Box<Weight>,
    t1: Term,
    t2: Term,
    seg: SegmentReader,
    m: Map<(int, Seq<u8>), Score>,
    d: DocId,
)
    requires
        seg.wf(),
        *a == Weight::Term(t1),
        *b == Weight::Term(t2),
        has_doc(seg.postings_of(t1@), d),
        has_doc(seg.postings_of(t2@), d),
    ensures
        Weight::And(a, b).explained(seg, m, d).contains_key(t1@),
        Weight::And(a, b).explained(seg, m, d).contains_key(t2@),
        Weight::And(a, b).explained(seg, m, d)[t2@] == score_of(seg.postings_of(t2@), d),
        t1@ != t2@ ==> Weight::And(a, b).explained(seg, m, d)[t1@]
            == score_of(seg.postings_of(t1@), d),
{
    let m1 = Weight::Term(t1).explained(seg, m, d);
    let m2 = Weight::Term(t2).explained(seg, m1, d);
    assert(Weight::And(a, b).explained(seg, m, d) == m2);
}

} // verus!
