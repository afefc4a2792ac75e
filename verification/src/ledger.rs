//! The match-terms ledger: a write-once-per-document accumulator that records,
//! for a fixed set of candidate documents, which terms matched and with what
//! score contribution.

use vstd::prelude::*;
use crate::{DocId, Score};
use crate::term::Term;

verus! {

/// One recorded contribution: a term and the score it assigned.
pub struct TermScore {
    pub term: Term,
    pub score: Score,
}

/// The recorded contributions of one tracked document.
pub struct DocEntry {
    pub doc: DocId,
    pub terms: Vec<TermScore>,
}

/// Accumulator keyed by a fixed, ascending-sorted set of documents,
/// established at construction.  For each tracked document it maps terms to
/// their score contribution, last write winning.
pub struct MatchingTerms {
    pub entries: Vec<DocEntry>,
}

/// The term views of `s` are pairwise distinct.
pub open spec fn distinct_terms(s: Seq<TermScore>) -> bool {
    forall|p: int, q: int| 0 <= p < q < s.len() ==> s[p].term@ != s[q].term@
}

/// Whether some entry of `s` is for document `d`.
pub open spec fn holds_doc(s: Seq<DocEntry>, d: DocId) -> bool {
    exists|i: int| 0 <= i < s.len() && s[i].doc == d
}

/// Whether `d` occurs among the first `k` elements of `s`.
pub open spec fn among_first(s: Seq<DocId>, k: int, d: DocId) -> bool {
    exists|w: int| 0 <= w < k && s[w] == d
}

/// The term-to-score mapping that a sequence of recorded contributions
/// denotes, later entries overwriting earlier ones.
pub open spec fn pairs_to_map(s: Seq<TermScore>) -> Map<(int, Seq<u8>), Score>
    decreases s.len(),
{
    if s.len() == 0 {
        Map::empty()
    } else {
        pairs_to_map(s.drop_last()).insert(s.last().term@, s.last().score)
    }
}

/// Overwriting the contribution at `k` with one carrying the same term view
/// denotes an insertion into the mapping.
pub proof fn lemma_pairs_to_map_update(s: Seq<TermScore>, k: int, x: TermScore)
    requires
        distinct_terms(s),
        0 <= k < s.len(),
        s[k].term@ == x.term@,
    ensures
        pairs_to_map(s.update(k, x)) == pairs_to_map(s).insert(x.term@, x.score),
    decreases s.len(),
{
    let u = s.update(k, x);
    if k == s.len() - 1 {
        assert(u.drop_last() =~= s.drop_last());
        assert(u.last() == x);
        assert(pairs_to_map(u) == pairs_to_map(s.drop_last()).insert(x.term@, x.score));
        assert(pairs_to_map(s.drop_last()).insert(s.last().term@, s.last().score).insert(x.term@, x.score)
            =~= pairs_to_map(s.drop_last()).insert(x.term@, x.score));
    } else {
        assert(u.drop_last() =~= s.drop_last().update(k, x));
        assert(u.last() == s.last());
        lemma_pairs_to_map_update(s.drop_last(), k, x);
        // the last entry's term differs from `x`'s, so the two insertions commute
        assert(s.last().term@ != x.term@);
        assert(pairs_to_map(s.drop_last()).insert(x.term@, x.score).insert(s.last().term@, s.last().score)
            =~= pairs_to_map(s.drop_last()).insert(s.last().term@, s.last().score).insert(x.term@, x.score));
    }
}

impl DocEntry {
    /// Records `score` for `term`, overwriting an earlier contribution of the
    /// same term.
    pub fn upsert(&mut self, term: Term, score: Score)
        requires
            distinct_terms(old(self).terms@),
        ensures
            final(self).doc == old(self).doc,
            distinct_terms(final(self).terms@),
            pairs_to_map(final(self).terms@) == pairs_to_map(old(self).terms@).insert(term@, score),
    {
        let ghost terms0 = self.terms@;
        let n = self.terms.len();
        let mut j: usize = 0;
        while j < n
            invariant
                j <= n,
                n == self.terms.len(),
                self.terms@ == terms0,
                terms0 == old(self).terms@,
                self.doc == old(self).doc,
                distinct_terms(terms0),
                forall|p: int| 0 <= p < j ==> terms0[p].term@ != term@,
            decreases n - j,
        {
            if self.terms[j].term.same_term(&term) {
                let ghost x = TermScore { term: term, score: score };
                self.terms[j] = TermScore { term, score };
                proof {
                    lemma_pairs_to_map_update(terms0, j as int, x);
                }
                return;
            }
            j = j + 1;
        }
        self.terms.push(TermScore { term, score });
        assert(self.terms@.drop_last() =~= terms0);
        assert(self.terms@.last().term@ == term@);
    }
}

impl MatchingTerms {
    /// The tracked documents, in storage order.
    pub open spec fn doc_ids(self) -> Seq<DocId> {
        self.entries@.map_values(|e: DocEntry| e.doc)
    }

    /// Whether `d` belongs to the fixed document set of the ledger.
    pub open spec fn tracks(self, d: DocId) -> bool {
        self.doc_ids().contains(d)
    }

    /// The position of the entry for a tracked document.
    pub open spec fn entry_index(self, d: DocId) -> int {
        choose|i: int| 0 <= i < self.entries@.len() && self.entries@[i].doc == d
    }

    /// The term-to-score mapping recorded for `d`; empty when `d` is not
    /// tracked.
    pub open spec fn terms_of(self, d: DocId) -> Map<(int, Seq<u8>), Score> {
        if self.tracks(d) {
            pairs_to_map(self.entries@[self.entry_index(d)].terms@)
        } else {
            Map::empty()
        }
    }

    /// Well-formed: documents strictly ascending (so unique), and each
    /// document's recorded terms pairwise distinct.
    pub open spec fn wf(self) -> bool {
        &&& forall|i: int, j: int| 0 <= i < j < self.entries@.len()
            ==> self.entries@[i].doc < self.entries@[j].doc
        &&& forall|i: int| 0 <= i < self.entries@.len()
            ==> distinct_terms(#[trigger] self.entries@[i].terms@)
    }

    /// A document at position `k` is tracked, and `k` is its entry index.
    pub proof fn lemma_entry_at(self, k: int)
        requires
            self.wf(),
            0 <= k < self.entries@.len(),
        ensures
            self.tracks(self.entries@[k].doc),
            self.entry_index(self.entries@[k].doc) == k,
    {
        let d = self.entries@[k].doc;
        assert(self.doc_ids()[k] == d);
        assert(self.doc_ids().contains(d));
        let i = self.entry_index(d);
        assert(0 <= i < self.entries@.len() && self.entries@[i].doc == d) by {
            let w = choose|w: int| 0 <= w < self.doc_ids().len() && self.doc_ids()[w] == d;
            assert(self.entries@[w].doc == d);
        }
        if i < k {
            assert(self.entries@[i].doc < self.entries@[k].doc);
        }
        if i > k {
            assert(self.entries@[k].doc < self.entries@[i].doc);
        }
    }

    /// A tracked document sits at its entry index.
    pub proof fn lemma_tracked_has_entry(self, d: DocId)
        requires
            self.wf(),
            self.tracks(d),
        ensures
            0 <= self.entry_index(d) < self.entries@.len(),
            self.entries@[self.entry_index(d)].doc == d,
    {
        let w = choose|w: int| 0 <= w < self.doc_ids().len() && self.doc_ids()[w] == d;
        assert(self.entries@[w].doc == d);
    }

    /// Builds a ledger tracking exactly the documents of `doc_ids`, each with
    /// no recorded term yet.  Duplicates collapse; the input order is
    /// irrelevant, storage is ascending.
    pub fn from_doc_ids(doc_ids: &[DocId]) -> (r: MatchingTerms)
        ensures
            r.wf(),
            forall|d: DocId| #[trigger] r.tracks(d) <==> doc_ids@.contains(d),
            forall|d: DocId| #[trigger] r.terms_of(d) == Map::<(int, Seq<u8>), Score>::empty(),
    {
        let mut entries: Vec<DocEntry> = Vec::new();
        let n = doc_ids.len();
        let mut k: usize = 0;
        while k < n
            invariant
                k <= n,
                n == doc_ids@.len(),
                forall|i: int, j: int| 0 <= i < j < entries@.len()
                    ==> entries@[i].doc < entries@[j].doc,
                forall|i: int| 0 <= i < entries@.len()
                    ==> (#[trigger] entries@[i].terms@).len() == 0,
                forall|d: DocId| #[trigger] holds_doc(entries@, d)
                    <==> among_first(doc_ids@, k as int, d),
            decreases n - k,
        {
            let d = doc_ids[k];
            let ghost entries0 = entries@;
            let mut pos: usize = 0;
            while pos < entries.len() && entries[pos].doc < d
                invariant
                    pos <= entries.len(),
                    entries@ == entries0,
                    forall|i: int| 0 <= i < pos ==> entries0[i].doc < d,
                decreases entries.len() - pos,
            {
                pos = pos + 1;
            }
            let already = pos < entries.len() && entries[pos].doc == d;
            if !already {
                entries.insert(pos, DocEntry { doc: d, terms: Vec::new() });
                assert(entries@ == entries0.insert(pos as int, entries@[pos as int]));
                assert(entries@[pos as int].doc == d);
                assert forall|i: int| 0 <= i < entries@.len()
                    implies (#[trigger] entries@[i].terms@).len() == 0 by {
                    if i < pos {
                        assert(entries@[i] == entries0[i]);
                    } else if i > pos {
                        assert(entries@[i] == entries0[i - 1]);
                    }
                }
                assert forall|i: int, j: int| 0 <= i < j < entries@.len()
                    implies entries@[i].doc < entries@[j].doc by {
                    if j < pos {
                        assert(entries@[i] == entries0[i]);
                        assert(entries@[j] == entries0[j]);
                    } else if i < pos && j == pos {
                        assert(entries@[i] == entries0[i]);
                    } else if i < pos && j > pos {
                        assert(entries@[i] == entries0[i]);
                        assert(entries@[j] == entries0[j - 1]);
                        assert(entries0[pos as int].doc >= d);
                        assert(entries0[pos as int].doc != d);
                    } else if i == pos && j > pos {
                        assert(entries@[j] == entries0[j - 1]);
                        assert(entries0[pos as int].doc >= d);
                        assert(entries0[pos as int].doc != d);
                    } else {
                        assert(entries@[i] == entries0[i - 1]);
                        assert(entries@[j] == entries0[j - 1]);
                    }
                }
            }
            assert forall|dd: DocId| #[trigger] holds_doc(entries@, dd)
                <==> among_first(doc_ids@, k + 1, dd) by {
                if holds_doc(entries@, dd) {
                    let i = choose|i: int| 0 <= i < entries@.len() && entries@[i].doc == dd;
                    if !already && i == pos {
                        assert(doc_ids@[k as int] == dd);
                        assert(among_first(doc_ids@, k + 1, dd));
                    } else {
                        let i0: int = if already || i < pos { i } else { i - 1 };
                        assert(entries0[i0].doc == dd);
                        assert(holds_doc(entries0, dd));
                        assert(among_first(doc_ids@, k as int, dd));
                        let w = choose|w: int| 0 <= w < k && doc_ids@[w] == dd;
                        assert(0 <= w < k + 1 && doc_ids@[w] == dd);
                        assert(among_first(doc_ids@, k + 1, dd));
                    }
                }
                if among_first(doc_ids@, k + 1, dd) {
                    let w = choose|w: int| 0 <= w < k + 1 && doc_ids@[w] == dd;
                    if w < k {
                        assert(among_first(doc_ids@, k as int, dd));
                        assert(holds_doc(entries0, dd));
                        let i = choose|i: int| 0 <= i < entries0.len() && entries0[i].doc == dd;
                        if already || i < pos {
                            assert(entries@[i].doc == dd);
                        } else {
                            assert(entries@[i + 1].doc == dd);
                        }
                        assert(holds_doc(entries@, dd));
                    } else {
                        assert(dd == d);
                        assert(entries@[pos as int].doc == d);
                        assert(holds_doc(entries@, dd));
                    }
                }
            }
            k = k + 1;
        }
        let r = MatchingTerms { entries };
        assert forall|d: DocId| #[trigger] r.tracks(d) <==> doc_ids@.contains(d) by {
            if r.tracks(d) {
                let w = choose|w: int| 0 <= w < r.doc_ids().len() && r.doc_ids()[w] == d;
                assert(r.entries@[w].doc == d);
                assert(holds_doc(r.entries@, d));
                assert(among_first(doc_ids@, n as int, d));
                let v = choose|v: int| 0 <= v < n && doc_ids@[v] == d;
                assert(doc_ids@[v] == d);
                assert(doc_ids@.contains(d));
            }
            if doc_ids@.contains(d) {
                let w = choose|w: int| 0 <= w < doc_ids@.len() && doc_ids@[w] == d;
                assert(0 <= w < n && doc_ids@[w] == d);
                assert(among_first(doc_ids@, n as int, d));
                assert(holds_doc(r.entries@, d));
                let i = choose|i: int| 0 <= i < r.entries@.len() && r.entries@[i].doc == d;
                assert(r.doc_ids()[i] == d);
                assert(r.doc_ids().contains(d));
            }
        }
        assert forall|d: DocId| #[trigger] r.terms_of(d) == Map::<(int, Seq<u8>), Score>::empty() by {
            if r.tracks(d) {
                r.lemma_tracked_has_entry(d);
                assert(r.entries@[r.entry_index(d)].terms@.len() == 0);
                assert(pairs_to_map(r.entries@[r.entry_index(d)].terms@) =~= Map::<(int, Seq<u8>), Score>::empty());
            }
        }
        r
    }

    /// The recorded term-to-score contributions for `d`, or `None` when `d`
    /// is not part of the ledger's fixed document set.
    pub fn terms_for_doc(&self, doc_id: DocId) -> (r: Option<&Vec<TermScore>>)
        requires
            self.wf(),
        ensures
            r.is_some() == self.tracks(doc_id),
            r.is_some() ==> pairs_to_map(r.unwrap()@) == self.terms_of(doc_id)
                && distinct_terms(r.unwrap()@),
    {
        let n = self.entries.len();
        let mut i: usize = 0;
        while i < n
            invariant
                i <= n,
                n == self.entries@.len(),
                self.wf(),
                forall|k: int| 0 <= k < i ==> self.entries@[k].doc != doc_id,
            decreases n - i,
        {
            if self.entries[i].doc == doc_id {
                proof {
                    self.lemma_entry_at(i as int);
                }
                return Some(&self.entries[i].terms);
            }
            i = i + 1;
        }
        proof {
            if self.tracks(doc_id) {
                self.lemma_tracked_has_entry(doc_id);
            }
        }
        None
    }

    /// All tracked documents, in ascending order — the canonical iteration
    /// order for explain reports.
    pub fn sorted_doc_ids(&self) -> (r: Vec<DocId>)
        requires
            self.wf(),
        ensures
            r@ == self.doc_ids(),
            forall|i: int, j: int| 0 <= i < j < r@.len() ==> r@[i] < r@[j],
            forall|d: DocId| r@.contains(d) <==> self.tracks(d),
    {
        let n = self.entries.len();
        let mut r: Vec<DocId> = Vec::new();
        let mut i: usize = 0;
        while i < n
            invariant
                i <= n,
                n == self.entries@.len(),
                r@ == self.doc_ids().take(i as int),
            decreases n - i,
        {
            r.push(self.entries[i].doc);
            assert(self.doc_ids().take(i + 1) =~= self.doc_ids().take(i as int).push(self.doc_ids()[i as int]));
            i = i + 1;
        }
        assert(r@ =~= self.doc_ids());
        r
    }

    /// Records `score` for `term` under `doc_id`, overwriting an earlier
    /// contribution of the same term; a silent no-op when `doc_id` is not
    /// tracked.  The fixed document set never changes.
    pub fn add_term(&mut self, doc_id: DocId, term: Term, score: Score)
        requires
            old(self).wf(),
        ensures
            final(self).wf(),
            final(self).doc_ids() == old(self).doc_ids(),
            old(self).tracks(doc_id) ==> final(self).terms_of(doc_id)
                == old(self).terms_of(doc_id).insert(term@, score),
            !old(self).tracks(doc_id) ==> final(self).terms_of(doc_id) == old(self).terms_of(doc_id),
            forall|d: DocId| d != doc_id ==> final(self).terms_of(d) == old(self).terms_of(d),
    {
        let ghost old_self = *self;
        let n = self.entries.len();
        let mut i: usize = 0;
        while i < n
            invariant
                i <= n,
                n == self.entries@.len(),
                *self == old_self,
                old_self == *old(self),
                old_self.wf(),
                forall|k: int| 0 <= k < i ==> self.entries@[k].doc != doc_id,
            decreases n - i,
        {
            if self.entries[i].doc == doc_id {
                proof {
                    old_self.lemma_entry_at(i as int);
                }
                let e = &mut self.entries[i];
                e.upsert(term, score);
                proof {
                    let k = i as int;
                    assert(self.entries@ == old_self.entries@.update(k, self.entries@[k]));
                    assert(self.entries@[k].doc == doc_id);
                    assert forall|a: int, b: int| 0 <= a < b < self.entries@.len()
                        implies self.entries@[a].doc < self.entries@[b].doc by {
                        assert(old_self.entries@[a].doc < old_self.entries@[b].doc);
                    }
                    assert forall|a: int| 0 <= a < self.entries@.len()
                        implies distinct_terms(#[trigger] self.entries@[a].terms@) by {
                        if a != k {
                            assert(self.entries@[a] == old_self.entries@[a]);
                        }
                    }
                    assert(self.doc_ids() =~= old_self.doc_ids());
                    self.lemma_entry_at(k);
                    assert(self.terms_of(doc_id) == old_self.terms_of(doc_id).insert(term@, score));
                    assert forall|d: DocId| d != doc_id
                        implies self.terms_of(d) == old_self.terms_of(d) by {
                        if old_self.tracks(d) {
                            old_self.lemma_tracked_has_entry(d);
                            let w = old_self.entry_index(d);
                            assert(w != k);
                            assert(self.entries@[w] == old_self.entries@[w]);
                            self.lemma_entry_at(w);
                        } else {
                            assert(!self.tracks(d));
                        }
                    }
                }
                return;
            }
            i = i + 1;
        }
        proof {
            if old_self.tracks(doc_id) {
                old_self.lemma_tracked_has_entry(doc_id);
            }
        }
    }
}

} // verus!
