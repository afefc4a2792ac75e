//! Postings: per-term match lists, and the ordered merges that boolean
//! combinations of queries perform on them.

use vstd::prelude::*;
use crate::{DocId, Score};

verus! {

/// One match: a document and the score the match contributes to it.
#[derive(Clone, Copy, PartialEq, Eq, Structural, Debug)]
pub struct Posting {
    pub doc: DocId,
    pub score: Score,
}

/// The documents of `s` appear in strictly increasing order.
pub open spec fn strictly_increasing(s: Seq<Posting>) -> bool {
    forall|i: int, j: int| 0 <= i < j < s.len() ==> s[i].doc < s[j].doc
}

/// Every document of `s` lies below `bound`.
pub open spec fn docs_below(s: Seq<Posting>, bound: DocId) -> bool {
    forall|i: int| 0 <= i < s.len() ==> s[i].doc < bound
}

/// Whether some posting of `s` is for document `d`.
pub open spec fn has_doc(s: Seq<Posting>, d: DocId) -> bool {
    exists|i: int| 0 <= i < s.len() && s[i].doc == d
}

/// The score of the first posting of `s` for document `d`, or 0 when there is
/// none.
pub open spec fn score_of(s: Seq<Posting>, d: DocId) -> Score
    decreases s.len(),
{
    if s.len() == 0 {
        0
    } else if s[0].doc == d {
        s[0].score
    } else {
        score_of(s.skip(1), d)
    }
}

/// Saturating sum of two score contributions.
pub open spec fn spec_combine(a: Score, b: Score) -> Score {
    if a + b > u32::MAX {
        u32::MAX
    } else {
        (a + b) as Score
    }
}

/// Saturating sum of two score contributions.
pub fn combine(a: Score, b: Score) -> (r: Score)
    ensures
        r == spec_combine(a, b),
{
    if a > u32::MAX - b {
        u32::MAX
    } else {
        a + b
    }
}

/// The postings both `a` and `b` match, in document order, each with the
/// combined score of the two contributions.
pub open spec fn and_merge(a: Seq<Posting>, b: Seq<Posting>) -> Seq<Posting>
    decreases a.len() + b.len(),
{
    if a.len() == 0 || b.len() == 0 {
        Seq::empty()
    } else if a[0].doc < b[0].doc {
        and_merge(a.skip(1), b)
    } else if b[0].doc < a[0].doc {
        and_merge(a, b.skip(1))
    } else {
        seq![Posting { doc: a[0].doc, score: spec_combine(a[0].score, b[0].score) }]
            + and_merge(a.skip(1), b.skip(1))
    }
}

/// The postings `a` or `b` matches, in document order; a document both match
/// carries the combined score of the two contributions.
pub open spec fn or_merge(a: Seq<Posting>, b: Seq<Posting>) -> Seq<Posting>
    decreases a.len() + b.len(),
{
    if a.len() == 0 {
        b
    } else if b.len() == 0 {
        a
    } else if a[0].doc < b[0].doc {
        seq![a[0]] + or_merge(a.skip(1), b)
    } else if b[0].doc < a[0].doc {
        seq![b[0]] + or_merge(a, b.skip(1))
    } else {
        seq![Posting { doc: a[0].doc, score: spec_combine(a[0].score, b[0].score) }]
            + or_merge(a.skip(1), b.skip(1))
    }
}

/// A document is in `s` exactly when it is its head or in its tail.
pub proof fn lemma_has_doc_step(s: Seq<Posting>, d: DocId)
    requires
        s.len() > 0,
    ensures
        has_doc(s, d) <==> (s[0].doc == d || has_doc(s.skip(1), d)),
{
    if has_doc(s, d) {
        let i = choose|i: int| 0 <= i < s.len() && s[i].doc == d;
        if i > 0 {
            assert(s.skip(1)[i - 1].doc == d);
        }
    }
    if has_doc(s.skip(1), d) {
        let i = choose|i: int| 0 <= i < s.skip(1).len() && s.skip(1)[i].doc == d;
        assert(s[i + 1].doc == d);
    }
}

/// The intersection merge of two strictly increasing posting lists is strictly
/// increasing, and holds exactly the documents both lists hold.
pub proof fn lemma_and_merge_props(a: Seq<Posting>, b: Seq<Posting>)
    requires
        strictly_increasing(a),
        strictly_increasing(b),
    ensures
        strictly_increasing(and_merge(a, b)),
        forall|d: DocId| #[trigger] has_doc(and_merge(a, b), d) <==> (has_doc(a, d) && has_doc(b, d)),
    decreases a.len() + b.len(),
{
    let r = and_merge(a, b);
    if a.len() == 0 || b.len() == 0 {
        assert forall|d: DocId| #[trigger] has_doc(r, d) <==> (has_doc(a, d) && has_doc(b, d)) by {
            if a.len() == 0 {
                assert(!has_doc(a, d));
            } else {
                assert(!has_doc(b, d));
            }
            assert(!has_doc(r, d));
        }
    } else if a[0].doc < b[0].doc {
        lemma_and_merge_props(a.skip(1), b);
        assert forall|d: DocId| #[trigger] has_doc(r, d) <==> (has_doc(a, d) && has_doc(b, d)) by {
            lemma_has_doc_step(a, d);
            if has_doc(a, d) && has_doc(b, d) && a[0].doc == d {
                // b holds d, yet every document of b is at least b[0].doc > d
                let i = choose|i: int| 0 <= i < b.len() && b[i].doc == d;
                assert(b[0].doc <= b[i].doc);
                assert(false);
            }
        }
    } else if b[0].doc < a[0].doc {
        lemma_and_merge_props(a, b.skip(1));
        assert forall|d: DocId| #[trigger] has_doc(r, d) <==> (has_doc(a, d) && has_doc(b, d)) by {
            lemma_has_doc_step(b, d);
            if has_doc(a, d) && has_doc(b, d) && b[0].doc == d {
                let i = choose|i: int| 0 <= i < a.len() && a[i].doc == d;
                assert(a[0].doc <= a[i].doc);
                assert(false);
            }
        }
    } else {
        lemma_and_merge_props(a.skip(1), b.skip(1));
        let tail = and_merge(a.skip(1), b.skip(1));
        let head = Posting { doc: a[0].doc, score: spec_combine(a[0].score, b[0].score) };
        assert(r == seq![head] + tail);
        assert(r[0] == head);
        assert forall|k: int| 0 <= k < tail.len() implies r[k + 1] == tail[k] by {}
        // every document of the tail lies strictly above the head document
        assert forall|k: int| 0 <= k < tail.len() implies tail[k].doc > head.doc by {
            assert(has_doc(tail, tail[k].doc));
            let i = choose|i: int| 0 <= i < a.skip(1).len() && a.skip(1)[i].doc == tail[k].doc;
            assert(a.skip(1)[i] == a[i + 1]);
            assert(a[0].doc < a[i + 1].doc);
        }
        assert(strictly_increasing(r));
        assert forall|d: DocId| #[trigger] has_doc(r, d) <==> (has_doc(a, d) && has_doc(b, d)) by {
            lemma_has_doc_step(a, d);
            lemma_has_doc_step(b, d);
            lemma_has_doc_step(r, d);
            assert(r.skip(1) =~= tail);
        }
    }
}

/// The union merge of two strictly increasing posting lists is strictly
/// increasing, and holds exactly the documents either list holds.
pub proof fn lemma_or_merge_props(a: Seq<Posting>, b: Seq<Posting>)
    requires
        strictly_increasing(a),
        strictly_increasing(b),
    ensures
        strictly_increasing(or_merge(a, b)),
        forall|d: DocId| #[trigger] has_doc(or_merge(a, b), d) <==> (has_doc(a, d) || has_doc(b, d)),
    decreases a.len() + b.len(),
{
    let r = or_merge(a, b);
    if a.len() == 0 {
        assert forall|d: DocId| #[trigger] has_doc(r, d) <==> (has_doc(a, d) || has_doc(b, d)) by {
            assert(!has_doc(a, d));
        }
    } else if b.len() == 0 {
        assert forall|d: DocId| #[trigger] has_doc(r, d) <==> (has_doc(a, d) || has_doc(b, d)) by {
            assert(!has_doc(b, d));
        }
    } else {
        let (head, ta, tb): (Posting, Seq<Posting>, Seq<Posting>) = if a[0].doc < b[0].doc {
            (a[0], a.skip(1), b)
        } else if b[0].doc < a[0].doc {
            (b[0], a, b.skip(1))
        } else {
            (
                Posting { doc: a[0].doc, score: spec_combine(a[0].score, b[0].score) },
                a.skip(1),
                b.skip(1),
            )
        };
        lemma_or_merge_props(ta, tb);
        let tail = or_merge(ta, tb);
        assert(r == seq![head] + tail);
        assert(r[0] == head);
        assert forall|k: int| 0 <= k < tail.len() implies r[k + 1] == tail[k] by {}
        assert forall|k: int| 0 <= k < tail.len() implies tail[k].doc > head.doc by {
            assert(has_doc(tail, tail[k].doc));
            if has_doc(ta, tail[k].doc) {
                let i = choose|i: int| 0 <= i < ta.len() && ta[i].doc == tail[k].doc;
                if a[0].doc <= b[0].doc {
                    assert(ta[i] == a[i + 1]);
                } else {
                    assert(ta[i] == a[i]);
                    assert(head.doc == b[0].doc);
                    assert(head.doc < a[0].doc);
                    assert(a[0].doc <= a[i].doc);
                }
            } else {
                let i = choose|i: int| 0 <= i < tb.len() && tb[i].doc == tail[k].doc;
                if b[0].doc <= a[0].doc {
                    assert(tb[i] == b[i + 1]);
                } else {
                    assert(tb[i] == b[i]);
                    assert(head.doc == a[0].doc);
                    assert(head.doc < b[0].doc);
                    assert(b[0].doc <= b[i].doc);
                }
            }
        }
        assert(strictly_increasing(r));
        assert forall|d: DocId| #[trigger] has_doc(r, d) <==> (has_doc(a, d) || has_doc(b, d)) by {
            lemma_has_doc_step(a, d);
            lemma_has_doc_step(b, d);
            lemma_has_doc_step(r, d);
            assert(r.skip(1) =~= tail);
        }
    }
}

/// In a strictly increasing sequence, the position of a posting never exceeds
/// its document identifier.
pub proof fn lemma_index_le_doc(s: Seq<Posting>, i: int)
    requires
        strictly_increasing(s),
        0 <= i < s.len(),
    ensures
        i <= s[i].doc,
    decreases i,
{
    if i > 0 {
        lemma_index_le_doc(s, i - 1);
    }
}

/// A strictly increasing sequence of documents below `bound` has at most
/// `bound` postings.
pub proof fn lemma_len_bounded(s: Seq<Posting>, bound: DocId)
    requires
        strictly_increasing(s),
        docs_below(s, bound),
    ensures
        s.len() <= bound,
{
    if s.len() > bound {
        lemma_index_le_doc(s, bound as int);
        assert(false);
    }
}

/// Structural copy of a posting list.
pub fn copy_postings(v: &Vec<Posting>) -> (r: Vec<Posting>)
    ensures
        r@ == v@,
{
    let mut out: Vec<Posting> = Vec::new();
    let mut i: usize = 0;
    while i < v.len()
        invariant
            i <= v.len(),
            out@ == v@.take(i as int),
        decreases v.len() - i,
    {
        out.push(v[i]);
        assert(v@.take(i + 1) =~= v@.take(i as int).push(v@[i as int]));
        i = i + 1;
    }
    assert(out@ =~= v@);
    out
}

/// The score a posting list assigns to document `d`, when it holds `d`.
pub fn lookup_score(v: &Vec<Posting>, d: DocId) -> (r: Option<Score>)
    requires
        strictly_increasing(v@),
    ensures
        r.is_some() == has_doc(v@, d),
        r.is_some() ==> r.unwrap() == score_of(v@, d),
{
    let mut i: usize = 0;
    assert(v@.skip(0) =~= v@);
    while i < v.len()
        invariant
            i <= v.len(),
            strictly_increasing(v@),
            forall|k: int| 0 <= k < i ==> v@[k].doc != d,
            score_of(v@, d) == score_of(v@.skip(i as int), d),
        decreases v.len() - i,
    {
        if v[i].doc == d {
            assert(has_doc(v@, d));
            assert(v@.skip(i as int)[0] == v@[i as int]);
            return Some(v[i].score);
        }
        assert(v@.skip(i as int).skip(1) =~= v@.skip(i + 1));
        assert(v@.skip(i as int)[0] == v@[i as int]);
        i = i + 1;
    }
    assert(!has_doc(v@, d));
    None
}

/// Intersection of two strictly increasing posting lists.
pub fn and_merge_exec(a: &Vec<Posting>, b: &Vec<Posting>) -> (r: Vec<Posting>)
    requires
        strictly_increasing(a@),
        strictly_increasing(b@),
    ensures
        r@ == and_merge(a@, b@),
{
    let mut out: Vec<Posting> = Vec::new();
    let mut i: usize = 0;
    let mut j: usize = 0;
    assert(a@.skip(0) =~= a@);
    assert(b@.skip(0) =~= b@);
    while i < a.len() && j < b.len()
        invariant
            i <= a.len(),
            j <= b.len(),
            and_merge(a@, b@) == out@ + and_merge(a@.skip(i as int), b@.skip(j as int)),
        decreases a.len() - i + b.len() - j,
    {
        let ghost out0 = out@;
        let ghost ra = a@.skip(i as int);
        let ghost rb = b@.skip(j as int);
        assert(ra[0] == a@[i as int]);
        assert(rb[0] == b@[j as int]);
        assert(ra.skip(1) =~= a@.skip(i + 1));
        assert(rb.skip(1) =~= b@.skip(j + 1));
        if a[i].doc < b[j].doc {
            i = i + 1;
        } else if b[j].doc < a[i].doc {
            j = j + 1;
        } else {
            let ghost x = Posting { doc: ra[0].doc, score: spec_combine(ra[0].score, rb[0].score) };
            out.push(Posting { doc: a[i].doc, score: combine(a[i].score, b[j].score) });
            assert(out@ =~= out0 + seq![x]);
            assert(and_merge(ra, rb) == seq![x] + and_merge(a@.skip(i + 1), b@.skip(j + 1)));
            assert(out0 + and_merge(ra, rb) =~= out@ + and_merge(a@.skip(i + 1), b@.skip(j + 1)));
            i = i + 1;
            j = j + 1;
        }
    }
    assert(and_merge(a@.skip(i as int), b@.skip(j as int)) =~= Seq::<Posting>::empty());
    assert(out@ =~= out@ + Seq::<Posting>::empty());
    out
}

/// Union of two strictly increasing posting lists.
pub fn or_merge_exec(a: &Vec<Posting>, b: &Vec<Posting>) -> (r: Vec<Posting>)
    requires
        strictly_increasing(a@),
        strictly_increasing(b@),
    ensures
        r@ == or_merge(a@, b@),
{
    let mut out: Vec<Posting> = Vec::new();
    let mut i: usize = 0;
    let mut j: usize = 0;
    assert(a@.skip(0) =~= a@);
    assert(b@.skip(0) =~= b@);
    while i < a.len() && j < b.len()
        invariant
            i <= a.len(),
            j <= b.len(),
            or_merge(a@, b@) == out@ + or_merge(a@.skip(i as int), b@.skip(j as int)),
        decreases a.len() - i + b.len() - j,
    {
        let ghost out0 = out@;
        let ghost ra = a@.skip(i as int);
        let ghost rb = b@.skip(j as int);
        assert(ra[0] == a@[i as int]);
        assert(rb[0] == b@[j as int]);
        assert(ra.skip(1) =~= a@.skip(i + 1));
        assert(rb.skip(1) =~= b@.skip(j + 1));
        if a[i].doc < b[j].doc {
            out.push(a[i]);
            assert(out@ =~= out0 + seq![ra[0]]);
            assert(or_merge(ra, rb) == seq![ra[0]] + or_merge(a@.skip(i + 1), rb));
            assert(out0 + or_merge(ra, rb) =~= out@ + or_merge(a@.skip(i + 1), b@.skip(j as int)));
            i = i + 1;
        } else if b[j].doc < a[i].doc {
            out.push(b[j]);
            assert(out@ =~= out0 + seq![rb[0]]);
            assert(or_merge(ra, rb) == seq![rb[0]] + or_merge(ra, b@.skip(j + 1)));
            assert(out0 + or_merge(ra, rb) =~= out@ + or_merge(a@.skip(i as int), b@.skip(j + 1)));
            j = j + 1;
        } else {
            let ghost x = Posting { doc: ra[0].doc, score: spec_combine(ra[0].score, rb[0].score) };
            out.push(Posting { doc: a[i].doc, score: combine(a[i].score, b[j].score) });
            assert(out@ =~= out0 + seq![x]);
            assert(or_merge(ra, rb) == seq![x] + or_merge(a@.skip(i + 1), b@.skip(j + 1)));
            assert(out0 + or_merge(ra, rb) =~= out@ + or_merge(a@.skip(i + 1), b@.skip(j + 1)));
            i = i + 1;
            j = j + 1;
        }
    }
    while i < a.len()
        invariant
            i <= a.len(),
            i == a.len() || j == b.len(),
            j <= b.len(),
            or_merge(a@, b@) == out@ + or_merge(a@.skip(i as int), b@.skip(j as int)),
        decreases a.len() - i,
    {
        let ghost out0 = out@;
        let ghost ra = a@.skip(i as int);
        assert(b@.skip(j as int) =~= Seq::<Posting>::empty());
        assert(ra[0] == a@[i as int]);
        assert(ra.skip(1) =~= a@.skip(i + 1));
        out.push(a[i]);
        assert(out@ =~= out0 + seq![ra[0]]);
        assert(or_merge(ra, b@.skip(j as int)) == ra);
        assert(ra =~= seq![ra[0]] + a@.skip(i + 1));
        assert(or_merge(a@.skip(i + 1), b@.skip(j as int)) == a@.skip(i + 1));
        assert(out0 + ra =~= out@ + a@.skip(i + 1));
        i = i + 1;
    }
    while j < b.len()
        invariant
            i == a.len(),
            j <= b.len(),
            or_merge(a@, b@) == out@ + or_merge(a@.skip(i as int), b@.skip(j as int)),
        decreases b.len() - j,
    {
        let ghost out0 = out@;
        let ghost rb = b@.skip(j as int);
        assert(a@.skip(i as int) =~= Seq::<Posting>::empty());
        assert(rb[0] == b@[j as int]);
        assert(rb.skip(1) =~= b@.skip(j + 1));
        out.push(b[j]);
        assert(out@ =~= out0 + seq![rb[0]]);
        assert(or_merge(a@.skip(i as int), rb) == rb);
        assert(rb =~= seq![rb[0]] + b@.skip(j + 1));
        assert(or_merge(a@.skip(i as int), b@.skip(j + 1)) == b@.skip(j + 1));
        assert(out0 + rb =~= out@ + b@.skip(j + 1));
        j = j + 1;
    }
    assert(a@.skip(i as int) =~= Seq::<Posting>::empty());
    assert(b@.skip(j as int) =~= Seq::<Posting>::empty());
    assert(out@ =~= out@ + or_merge(a@.skip(i as int), b@.skip(j as int)));
    out
}

} // verus!
