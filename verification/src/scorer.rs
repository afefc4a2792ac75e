//! The scorer: a stateful per-segment cursor that enumerates matching
//! documents in strictly increasing order and yields each one's score.

use vstd::prelude::*;
use crate::{DocId, Score, TERMINATED};
use crate::postings::{Posting, strictly_increasing, docs_below, lemma_len_bounded};

verus! {

/// A cursor over the matches of one (query, segment) pairing.  Two observable
/// states: positioned on a match, or not (before the first `advance`, and
/// exhausted after the last).
pub struct Scorer {
    pub postings: Vec<Posting>,
    pub next: usize,
    pub positioned: bool,
}

impl Scorer {
    /// The full (document, score) stream this cursor enumerates.
    pub open spec fn full_seq(self) -> Seq<Posting> {
        self.postings@
    }

    /// How many successful `advance` calls have happened.
    pub open spec fn advances(self) -> int {
        self.next as int
    }

    /// Whether the cursor is positioned on a match.
    pub open spec fn is_positioned(self) -> bool {
        self.positioned
    }

    /// The match the cursor is positioned on.
    pub open spec fn current(self) -> Posting {
        self.full_seq()[self.advances() - 1]
    }

    /// Cursor consistency: the stream is strictly increasing with documents
    /// below the sentinel, and the position lies within it.
    pub open spec fn wf(self) -> bool {
        &&& strictly_increasing(self.full_seq())
        &&& docs_below(self.full_seq(), TERMINATED)
        &&& self.advances() <= self.full_seq().len()
        &&& (self.is_positioned() ==> 1 <= self.advances())
        &&& (!self.is_positioned() ==> self.advances() == 0 || self.advances()
            == self.full_seq().len())
    }

    /// A fresh cursor over `postings`, positioned before the first match.
    pub fn new(postings: Vec<Posting>) -> (s: Scorer)
        requires
            strictly_increasing(postings@),
            docs_below(postings@, TERMINATED),
        ensures
            s.wf(),
            s.full_seq() == postings@,
            s.advances() == 0,
            !s.is_positioned(),
    {
        Scorer { postings, next: 0, positioned: false }
    }

    /// Moves to the next matching document.  Returns `true` and positions the
    /// cursor on it, or returns `false` and leaves the cursor exhausted when
    /// no match is left; calling again after that stays a no-op.
    pub fn advance(&mut self) -> (r: bool)
        requires
            old(self).wf(),
        ensures
            final(self).wf(),
            final(self).full_seq() == old(self).full_seq(),
            r == (old(self).advances() < old(self).full_seq().len()),
            r ==> final(self).advances() == old(self).advances() + 1
                && final(self).is_positioned()
                && final(self).current() == old(self).full_seq()[old(self).advances()],
            !r ==> final(self).advances() == old(self).advances() && !final(self).is_positioned(),
    {
        if self.next < self.postings.len() {
            self.next = self.next + 1;
            self.positioned = true;
            true
        } else {
            self.positioned = false;
            false
        }
    }

    /// The document the cursor is positioned on, or [`TERMINATED`] when it is
    /// not positioned on any.
    pub fn doc(&self) -> (d: DocId)
        requires
            self.wf(),
        ensures
            self.is_positioned() ==> d == self.current().doc && d < TERMINATED,
            !self.is_positioned() ==> d == TERMINATED,
    {
        if self.positioned {
            self.postings[self.next - 1].doc
        } else {
            TERMINATED
        }
    }

    /// The score of the document the cursor is positioned on, or 0 when it is
    /// not positioned on any.
    pub fn score(&self) -> (s: Score)
        requires
            self.wf(),
        ensures
            self.is_positioned() ==> s == self.current().score,
            !self.is_positioned() ==> s == 0,
    {
        if self.positioned {
            self.postings[self.next - 1].score
        } else {
            0
        }
    }

    /// Drives the cursor to exhaustion, counting the successful advances
    /// that were left.
    pub fn count(&mut self) -> (n: u32)
        requires
            old(self).wf(),
        ensures
            final(self).wf(),
            final(self).full_seq() == old(self).full_seq(),
            n == old(self).full_seq().len() - old(self).advances(),
            final(self).advances() == final(self).full_seq().len(),
            !final(self).is_positioned(),
    {
        proof {
            lemma_len_bounded(self.postings@, TERMINATED);
        }
        let mut n: u32 = 0;
        loop
            invariant
                self.wf(),
                self.full_seq() == old(self).full_seq(),
                old(self).advances() <= self.advances(),
                self.full_seq().len() <= TERMINATED,
                n == self.advances() - old(self).advances(),
            ensures
                self.wf(),
                self.full_seq() == old(self).full_seq(),
                !self.is_positioned(),
                self.advances() == self.full_seq().len(),
                n == self.full_seq().len() - old(self).advances(),
            decreases self.full_seq().len() - self.advances() + 1,
        {
            if !self.advance() {
                break;
            }
            n = n + 1;
        }
        n
    }
}

} // verus!
