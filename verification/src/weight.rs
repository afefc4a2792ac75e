//! The weight: the per-segment specialization of a logical query.  A weight
//! builds scorers bound to one segment, counts its matches there, and can
//! report per-term score contributions into a match-terms ledger.

use vstd::prelude::*;
use crate::{DocId, Score, TERMINATED};
use crate::term::Term;
use crate::postings::{
    Posting, strictly_increasing, docs_below, has_doc, score_of, and_merge, or_merge,
    lemma_and_merge_props, lemma_or_merge_props, lemma_len_bounded, copy_postings,
    lookup_score, and_merge_exec, or_merge_exec,
};
use crate::segment::SegmentReader;
use crate::scorer::Scorer;
use crate::ledger::MatchingTerms;

verus! {

/// A logical query specialized for execution: a single term, or a boolean
/// combination of two sub-queries.  Conceptually pure with respect to a
/// segment: all its operations are functions of the query shape and the
/// segment alone.
pub enum Weight {
    /// Matches the documents whose postings carry the term.
    Term(Term),
    /// Matches the documents both sub-queries match; scores add.
    And(Box<Weight>, Box<Weight>),
    /// Matches the documents either sub-query matches; shared scores add.
    Or(Box<Weight>, Box<Weight>),
}

impl Weight {
    /// The (document, score) stream this weight matches in `seg`, in strictly
    /// increasing document order.
    pub open spec fn matches(self, seg: SegmentReader) -> Seq<Posting>
        decreases self,
    {
        match self {
            Weight::Term(t) => seg.postings_of(t@),
            Weight::And(a, b) => and_merge(a.matches(seg), b.matches(seg)),
            Weight::Or(a, b) => or_merge(a.matches(seg), b.matches(seg)),
        }
    }

    /// How one document's recorded term contributions read after this weight
    /// reports into them: each term leaf that matches `d` in `seg` writes its
    /// term with its score for `d`; boolean combinations only propagate, left
    /// child first.
    pub open spec fn explained(
        self,
        seg: SegmentReader,
        m: Map<(int, Seq<u8>), Score>,
        d: DocId,
    ) -> Map<(int, Seq<u8>), Score>
        decreases self,
    {
        match self {
            Weight::Term(t) => if has_doc(seg.postings_of(t@), d) {
                m.insert(t@, score_of(seg.postings_of(t@), d))
            } else {
                m
            },
            Weight::And(a, b) => b.explained(seg, a.explained(seg, m, d), d),
            Weight::Or(a, b) => b.explained(seg, a.explained(seg, m, d), d),
        }
    }

    /// The match stream of any weight is strictly increasing, with all
    /// documents below the segment's bound.
    pub proof fn lemma_matches_wf(self, seg: SegmentReader)
        requires
            seg.wf(),
        ensures
            strictly_increasing(self.matches(seg)),
            docs_below(self.matches(seg), TERMINATED),
        decreases self,
    {
        match self {
            Weight::Term(t) => {
                seg.lemma_postings_of_wf(t@);
            },
            Weight::And(a, b) => {
                a.lemma_matches_wf(seg);
                b.lemma_matches_wf(seg);
                lemma_and_merge_props(a.matches(seg), b.matches(seg));
                assert forall|i: int| 0 <= i < self.matches(seg).len()
                    implies (#[trigger] self.matches(seg)[i]).doc < TERMINATED by {
                    let r = self.matches(seg);
                    assert(has_doc(r, r[i].doc));
                    let w = choose|w: int| 0 <= w < a.matches(seg).len()
                        && #[trigger] a.matches(seg)[w].doc == r[i].doc;
                }
            },
            Weight::Or(a, b) => {
                a.lemma_matches_wf(seg);
                b.lemma_matches_wf(seg);
                lemma_or_merge_props(a.matches(seg), b.matches(seg));
                assert forall|i: int| 0 <= i < self.matches(seg).len()
                    implies (#[trigger] self.matches(seg)[i]).doc < TERMINATED by {
                    let r = self.matches(seg);
                    assert(has_doc(r, r[i].doc));
                    if has_doc(a.matches(seg), r[i].doc) {
                        let w = choose|w: int| 0 <= w < a.matches(seg).len()
                            && #[trigger] a.matches(seg)[w].doc == r[i].doc;
                    } else {
                        let w = choose|w: int| 0 <= w < b.matches(seg).len()
                            && #[trigger] b.matches(seg)[w].doc == r[i].doc;
                    }
                }
            },
        }
    }

    /// The materialized match stream of this weight in `reader`'s segment.
    fn postings(&self, reader: &SegmentReader) -> (v: Vec<Posting>)
        requires
            reader.wf(),
        ensures
            v@ == self.matches(*reader),
        decreases *self,
    {
        match self {
            Weight::Term(t) => {
                match reader.postings_for(t) {
                    Some(p) => copy_postings(p),
                    None => Vec::new(),
                }
            },
            Weight::And(a, b) => {
                let pa = a.postings(reader);
                let pb = b.postings(reader);
                proof {
                    a.lemma_matches_wf(*reader);
                    b.lemma_matches_wf(*reader);
                }
                and_merge_exec(&pa, &pb)
            },
            Weight::Or(a, b) => {
                let pa = a.postings(reader);
                let pb = b.postings(reader);
                proof {
                    a.lemma_matches_wf(*reader);
                    b.lemma_matches_wf(*reader);
                }
                or_merge_exec(&pa, &pb)
            },
        }
    }

    /// Builds a fresh scorer for this weight over `reader`'s segment.  An
    /// absent term yields a scorer matching zero documents, not a failure.
    pub fn scorer(&self, reader: &SegmentReader) -> (s: Scorer)
        requires
            reader.wf(),
        ensures
            s.wf(),
            s.full_seq() == self.matches(*reader),
            s.advances() == 0,
            !s.is_positioned(),
    {
        let postings = self.postings(reader);
        proof {
            self.lemma_matches_wf(*reader);
        }
        Scorer::new(postings)
    }

    /// The number of documents this weight matches in `reader`'s segment:
    /// the count a freshly built scorer reaches when driven to exhaustion.
    pub fn count(&self, reader: &SegmentReader) -> (n: u32)
        requires
            reader.wf(),
        ensures
            n == self.matches(*reader).len(),
    {
        let mut s = self.scorer(reader);
        s.count()
    }

    /// Reports this weight's per-term score contributions into `ledger`: for
    /// every document of the ledger's fixed set that a term leaf of this
    /// weight matches in `reader`'s segment, that leaf's term and score are
    /// recorded.  Documents outside the fixed set stay out; boolean
    /// combinations propagate to both children and contribute no terms of
    /// their own.
    pub fn matching_terms(&self, reader: &SegmentReader, ledger: &mut MatchingTerms)
        requires
            reader.wf(),
            old(ledger).wf(),
        ensures
            final(ledger).wf(),
            final(ledger).doc_ids() == old(ledger).doc_ids(),
            forall|d: DocId| old(ledger).tracks(d) ==> #[trigger] final(ledger).terms_of(d)
                == self.explained(*reader, old(ledger).terms_of(d), d),
        decreases *self,
    {
        match self {
            Weight::Term(t) => {
                let ghost led0 = *old(ledger);
                match reader.postings_for(t) {
                    Some(plist) => {
                        let ids = ledger.sorted_doc_ids();
                        let n = ids.len();
                        let mut k: usize = 0;
                        while k < n
                            invariant
                                k <= n,
                                n == ids@.len(),
                                reader.wf(),
                                ledger.wf(),
                                led0.wf(),
                                led0 == *old(ledger),
                                *self == Weight::Term(*t),
                                reader.has_term(t@),
                                plist@ == reader.postings_of(t@),
                                strictly_increasing(plist@),
                                ids@ == led0.doc_ids(),
                                forall|i: int, j: int| 0 <= i < j < ids@.len()
                                    ==> ids@[i] < ids@[j],
                                ledger.doc_ids() == led0.doc_ids(),
                                forall|j: int| 0 <= j < k ==> #[trigger] ledger.terms_of(ids@[j])
                                    == self.explained(*reader, led0.terms_of(ids@[j]), ids@[j]),
                                forall|j: int| k <= j < n ==> #[trigger] ledger.terms_of(ids@[j])
                                    == led0.terms_of(ids@[j]),
                            decreases n - k,
                        {
                            let d = ids[k];
                            proof {
                                assert(led0.doc_ids()[k as int] == d);
                                assert(led0.doc_ids().contains(d));
                                assert(ledger.tracks(d));
                            }
                            let ghost mid = *ledger;
                            match lookup_score(plist, d) {
                                Some(sc) => {
                                    let t2 = t.duplicate();
                                    ledger.add_term(d, t2, sc);
                                },
                                None => {},
                            }
                            proof {
                                assert(ledger.terms_of(d) == self.explained(
                                    *reader,
                                    mid.terms_of(d),
                                    d,
                                ));
                                assert(mid.terms_of(d) == led0.terms_of(d));
                                assert forall|j: int| 0 <= j < k + 1 implies
                                    #[trigger] ledger.terms_of(ids@[j])
                                    == self.explained(*reader, led0.terms_of(ids@[j]), ids@[j]) by {
                                    if j < k {
                                        assert(ids@[j] < ids@[k as int]);
                                        assert(ledger.terms_of(ids@[j]) == mid.terms_of(ids@[j]));
                                    }
                                }
                                assert forall|j: int| k + 1 <= j < n implies
                                    #[trigger] ledger.terms_of(ids@[j])
                                    == led0.terms_of(ids@[j]) by {
                                    assert(ids@[k as int] < ids@[j]);
                                    assert(ledger.terms_of(ids@[j]) == mid.terms_of(ids@[j]));
                                }
                            }
                            k = k + 1;
                        }
                        proof {
                            assert forall|d: DocId| led0.tracks(d) implies
                                #[trigger] ledger.terms_of(d)
                                == self.explained(*reader, led0.terms_of(d), d) by {
                                let w = choose|w: int| 0 <= w < led0.doc_ids().len()
                                    && led0.doc_ids()[w] == d;
                                assert(ids@[w] == d);
                                assert(ledger.terms_of(ids@[w]) == self.explained(
                                    *reader,
                                    led0.terms_of(ids@[w]),
                                    ids@[w],
                                ));
                            }
                        }
                    },
                    None => {
                        proof {
                            assert forall|d: DocId| led0.tracks(d) implies
                                #[trigger] ledger.terms_of(d)
                                == self.explained(*reader, led0.terms_of(d), d) by {
                                assert(!has_doc(reader.postings_of(t@), d));
                            }
                        }
                    },
                }
            },
            Weight::And(a, b) => {
                let ghost led0 = *old(ledger);
                a.matching_terms(reader, ledger);
                let ghost led1 = *ledger;
                b.matching_terms(reader, ledger);
                proof {
                    assert forall|d: DocId| led0.tracks(d) implies #[trigger] ledger.terms_of(d)
                        == self.explained(*reader, led0.terms_of(d), d) by {
                        assert(led1.tracks(d));
                        assert(led1.terms_of(d) == a.explained(*reader, led0.terms_of(d), d));
                        assert(ledger.terms_of(d) == b.explained(*reader, led1.terms_of(d), d));
                    }
                }
            },
            Weight::Or(a, b) => {
                let ghost led0 = *old(ledger);
                a.matching_terms(reader, ledger);
                let ghost led1 = *ledger;
                b.matching_terms(reader, ledger);
                proof {
                    assert forall|d: DocId| led0.tracks(d) implies #[trigger] ledger.terms_of(d)
                        == self.explained(*reader, led0.terms_of(d), d) by {
                        assert(led1.tracks(d));
                        assert(led1.terms_of(d) == a.explained(*reader, led0.terms_of(d), d));
                        assert(ledger.terms_of(d) == b.explained(*reader, led1.terms_of(d), d));
                    }
                }
            },
        }
    }
}

} // verus!
