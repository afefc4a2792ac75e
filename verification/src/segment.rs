//! An in-memory segment reader: the read-only capability through which
//! weights and scorers see one immutable shard of the index.

use vstd::prelude::*;
use crate::{DocId, TERMINATED};
use crate::term::Term;
use crate::postings::{Posting, strictly_increasing, docs_below};

verus! {

/// The postings of one term within a segment.
pub struct PostingList {
    pub term: Term,
    pub postings: Vec<Posting>,
}

/// Read-only handle to one segment: for each indexed term, its postings in
/// strictly increasing document order, plus the segment's document count.
pub struct SegmentReader {
    pub lists: Vec<PostingList>,
    pub max_doc: u32,
}

/// What a well-formed segment guarantees: every posting list strictly
/// increasing with documents below `max_doc`, and one list per term.
pub open spec fn valid_lists(lists: Seq<PostingList>, max_doc: u32) -> bool {
    &&& max_doc < TERMINATED
    &&& forall|i: int| 0 <= i < lists.len() ==> strictly_increasing(
        (#[trigger] lists[i]).postings@,
    ) && docs_below(lists[i].postings@, max_doc)
    &&& forall|i: int, j: int| 0 <= i < j < lists.len() ==> lists[i].term@ != lists[j].term@
}

impl SegmentReader {
    /// Well-formed segment handle.
    pub open spec fn wf(self) -> bool {
        valid_lists(self.lists@, self.max_doc)
    }

    /// Whether the segment indexes the term `t`.
    pub open spec fn has_term(self, t: (int, Seq<u8>)) -> bool {
        exists|i: int| 0 <= i < self.lists@.len() && self.lists@[i].term@ == t
    }

    /// The position of the posting list for `t`.
    pub open spec fn list_index(self, t: (int, Seq<u8>)) -> int {
        choose|i: int| 0 <= i < self.lists@.len() && self.lists@[i].term@ == t
    }

    /// The postings of `t` in this segment; empty when the segment does not
    /// index `t` — an absent term is not a failure.
    pub open spec fn postings_of(self, t: (int, Seq<u8>)) -> Seq<Posting> {
        if self.has_term(t) {
            self.lists@[self.list_index(t)].postings@
        } else {
            Seq::empty()
        }
    }

    /// The postings of any term are strictly increasing and below `max_doc`.
    pub proof fn lemma_postings_of_wf(self, t: (int, Seq<u8>))
        requires
            self.wf(),
        ensures
            strictly_increasing(self.postings_of(t)),
            docs_below(self.postings_of(t), self.max_doc),
            docs_below(self.postings_of(t), TERMINATED),
    {
        if self.has_term(t) {
            let i = self.list_index(t);
            assert(0 <= i < self.lists@.len() && self.lists@[i].term@ == t);
        }
    }

    /// The list at position `k` is the one `list_index` finds for its term.
    pub proof fn lemma_list_at(self, k: int)
        requires
            self.wf(),
            0 <= k < self.lists@.len(),
        ensures
            self.has_term(self.lists@[k].term@),
            self.list_index(self.lists@[k].term@) == k,
            self.postings_of(self.lists@[k].term@) == self.lists@[k].postings@,
    {
        let t = self.lists@[k].term@;
        assert(self.has_term(t));
        let i = self.list_index(t);
        assert(0 <= i < self.lists@.len() && self.lists@[i].term@ == t);
        if i < k {
            assert(self.lists@[i].term@ != self.lists@[k].term@);
        }
        if i > k {
            assert(self.lists@[k].term@ != self.lists@[i].term@);
        }
    }

    /// Builds a segment handle over `lists`, validating that they are
    /// well-formed: `None` exactly when they are not.
    pub fn from_lists(max_doc: u32, lists: Vec<PostingList>) -> (r: Option<SegmentReader>)
        ensures
            r.is_some() == valid_lists(lists@, max_doc),
            r.is_some() ==> r.unwrap().wf() && r.unwrap().lists@ == lists@
                && r.unwrap().max_doc == max_doc,
    {
        if max_doc >= TERMINATED {
            return None;
        }
        let n = lists.len();
        let mut i: usize = 0;
        while i < n
            invariant
                i <= n,
                n == lists@.len(),
                forall|k: int| 0 <= k < i ==> strictly_increasing(
                    (#[trigger] lists@[k]).postings@,
                ) && docs_below(lists@[k].postings@, max_doc),
            decreases n - i,
        {
            let p = &lists[i].postings;
            let m = p.len();
            let mut w: usize = 0;
            while w < m
                invariant
                    w <= m,
                    m == p@.len(),
                    p@ == lists@[i as int].postings@,
                    i < n == lists@.len(),
                    forall|a: int, b: int| 0 <= a < b < w ==> p@[a].doc < p@[b].doc,
                    forall|a: int| 0 <= a < w ==> p@[a].doc < max_doc,
                decreases m - w,
            {
                if p[w].doc >= max_doc {
                    assert(!docs_below(lists@[i as int].postings@, max_doc));
                    return None;
                }
                if w > 0 && p[w - 1].doc >= p[w].doc {
                    assert(!strictly_increasing(lists@[i as int].postings@));
                    return None;
                }
                assert forall|a: int, b: int| 0 <= a < b < w + 1 implies p@[a].doc < p@[b].doc by {
                    if b == w && a < w - 1 {
                        assert(p@[a].doc < p@[w - 1].doc);
                    }
                }
                w = w + 1;
            }
            i = i + 1;
        }
        let mut a: usize = 0;
        while a < n
            invariant
                a <= n,
                n == lists@.len(),
                forall|k: int| 0 <= k < n ==> strictly_increasing(
                    (#[trigger] lists@[k]).postings@,
                ) && docs_below(lists@[k].postings@, max_doc),
                forall|p: int, q: int| 0 <= p < q < n && p < a ==> lists@[p].term@ != lists@[q].term@,
            decreases n - a,
        {
            let mut b: usize = a + 1;
            while b < n
                invariant
                    a < b <= n,
                    n == lists@.len(),
                    forall|q: int| a < q < b ==> lists@[a as int].term@ != lists@[q].term@,
                decreases n - b,
            {
                if lists[a].term.same_term(&lists[b].term) {
                    return None;
                }
                b = b + 1;
            }
            a = a + 1;
        }
        Some(SegmentReader { lists, max_doc })
    }

    /// The number of documents the segment holds identifiers below.
    pub fn num_docs(&self) -> (m: u32)
        ensures
            m == self.max_doc,
    {
        self.max_doc
    }

    /// The postings for `term`, or `None` when the segment does not index it.
    pub fn postings_for(&self, term: &Term) -> (r: Option<&Vec<Posting>>)
        requires
            self.wf(),
        ensures
            r.is_some() == self.has_term(term@),
            r.is_some() ==> r.unwrap()@ == self.postings_of(term@),
            r.is_none() ==> self.postings_of(term@) == Seq::<Posting>::empty(),
    {
        let n = self.lists.len();
        let mut i: usize = 0;
        while i < n
            invariant
                i <= n,
                n == self.lists@.len(),
                self.wf(),
                forall|k: int| 0 <= k < i ==> self.lists@[k].term@ != term@,
            decreases n - i,
        {
            if self.lists[i].term.same_term(term) {
                proof {
                    self.lemma_list_at(i as int);
                }
                return Some(&self.lists[i].postings);
            }
            i = i + 1;
        }
        proof {
            if self.has_term(term@) {
                let k = self.list_index(term@);
                assert(0 <= k < self.lists@.len() && self.lists@[k].term@ == term@);
            }
        }
        None
    }
}

} // verus!
