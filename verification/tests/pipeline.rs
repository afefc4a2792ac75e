use segscore::ledger::MatchingTerms;
use segscore::postings::{combine, Posting};
use segscore::segment::{PostingList, SegmentReader};
use segscore::term::Term;
use segscore::weight::Weight;
use segscore::TERMINATED;

fn term(s: &str) -> Term {
    Term::new(0, s.as_bytes().to_vec())
}

fn posting(doc: u32, score: u32) -> Posting {
    Posting { doc, score }
}

/// A small segment: term "a" in documents 1 and 3, term "b" in 2 and 3.
fn segment() -> SegmentReader {
    let lists = vec![
        PostingList { term: term("a"), postings: vec![posting(1, 10), posting(3, 30)] },
        PostingList { term: term("b"), postings: vec![posting(2, 20), posting(3, 40)] },
    ];
    SegmentReader::from_lists(100, lists).unwrap()
}

fn drive(w: &Weight, seg: &SegmentReader) -> Vec<(u32, u32)> {
    let mut s = w.scorer(seg);
    let mut out = Vec::new();
    while s.advance() {
        out.push((s.doc(), s.score()));
    }
    out
}

#[test]
fn term_scorer_enumerates_in_increasing_order() {
    let seg = segment();
    let w = Weight::Term(term("a"));
    let mut s = w.scorer(&seg);
    assert_eq!(s.doc(), TERMINATED);
    assert_eq!(s.score(), 0);
    assert!(s.advance());
    assert_eq!(s.doc(), 1);
    assert_eq!(s.score(), 10);
    assert!(s.advance());
    assert_eq!(s.doc(), 3);
    assert_eq!(s.score(), 30);
    assert!(!s.advance());
    assert_eq!(s.doc(), TERMINATED);
    assert!(!s.advance());
    assert_eq!(s.doc(), TERMINATED);
}

#[test]
fn weight_count_equals_successful_advances() {
    let seg = segment();
    for w in [
        Weight::Term(term("a")),
        Weight::Term(term("zzz")),
        Weight::And(Box::new(Weight::Term(term("a"))), Box::new(Weight::Term(term("b")))),
        Weight::Or(Box::new(Weight::Term(term("a"))), Box::new(Weight::Term(term("b")))),
    ] {
        let mut s = w.scorer(&seg);
        let mut advances = 0;
        while s.advance() {
            advances += 1;
        }
        assert_eq!(w.count(&seg) as usize, advances);
        assert_eq!(w.count(&seg) as usize, drive(&w, &seg).len());
    }
}

#[test]
fn scorer_count_drives_to_exhaustion() {
    let seg = segment();
    let w = Weight::Or(Box::new(Weight::Term(term("a"))), Box::new(Weight::Term(term("b"))));
    let mut s = w.scorer(&seg);
    assert_eq!(s.count(), 3);
    assert!(!s.advance());
    let mut s2 = w.scorer(&seg);
    assert!(s2.advance());
    assert_eq!(s2.count(), 2);
}

#[test]
fn two_scorers_from_one_weight_agree() {
    let seg = segment();
    let w = Weight::Or(Box::new(Weight::Term(term("a"))), Box::new(Weight::Term(term("b"))));
    assert_eq!(drive(&w, &seg), drive(&w, &seg));
    let t = Weight::Term(term("a"));
    assert_eq!(drive(&t, &seg), drive(&t, &seg));
}

#[test]
fn absent_term_matches_zero_documents() {
    let seg = segment();
    let w = Weight::Term(term("zzz"));
    assert_eq!(w.count(&seg), 0);
    let mut s = w.scorer(&seg);
    assert!(!s.advance());
    assert_eq!(s.doc(), TERMINATED);
}

#[test]
fn and_weight_intersects_and_adds_scores() {
    let seg = segment();
    let w = Weight::And(Box::new(Weight::Term(term("a"))), Box::new(Weight::Term(term("b"))));
    assert_eq!(drive(&w, &seg), vec![(3, 70)]);
    assert_eq!(w.count(&seg), 1);
}

#[test]
fn or_weight_unions_and_adds_shared_scores() {
    let seg = segment();
    let w = Weight::Or(Box::new(Weight::Term(term("a"))), Box::new(Weight::Term(term("b"))));
    assert_eq!(drive(&w, &seg), vec![(1, 10), (2, 20), (3, 70)]);
    assert_eq!(w.count(&seg), 3);
}

#[test]
fn score_combination_saturates() {
    assert_eq!(combine(3, 4), 7);
    assert_eq!(combine(u32::MAX, 5), u32::MAX);
    assert_eq!(combine(u32::MAX - 2, 2), u32::MAX);
}

#[test]
fn and_weight_reports_both_children_terms() {
    let seg = segment();
    let w = Weight::And(Box::new(Weight::Term(term("a"))), Box::new(Weight::Term(term("b"))));
    let mut ledger = MatchingTerms::from_doc_ids(&[3]);
    w.matching_terms(&seg, &mut ledger);
    let terms = ledger.terms_for_doc(3).unwrap();
    assert_eq!(terms.len(), 2);
    let mut a_score = None;
    let mut b_score = None;
    for ts in terms.iter() {
        if ts.term.same_term(&term("a")) {
            a_score = Some(ts.score);
        }
        if ts.term.same_term(&term("b")) {
            b_score = Some(ts.score);
        }
    }
    assert_eq!(a_score, Some(30));
    assert_eq!(b_score, Some(40));
}

#[test]
fn leaf_reports_only_documents_it_matches() {
    let seg = segment();
    let w = Weight::And(Box::new(Weight::Term(term("a"))), Box::new(Weight::Term(term("b"))));
    let mut ledger = MatchingTerms::from_doc_ids(&[1]);
    w.matching_terms(&seg, &mut ledger);
    let terms = ledger.terms_for_doc(1).unwrap();
    assert_eq!(terms.len(), 1);
    assert!(terms[0].term.same_term(&term("a")));
    assert_eq!(terms[0].score, 10);
    assert!(ledger.terms_for_doc(3).is_none());
}

#[test]
fn ledger_reports_never_add_documents() {
    let seg = segment();
    let w = Weight::Or(Box::new(Weight::Term(term("a"))), Box::new(Weight::Term(term("b"))));
    let mut ledger = MatchingTerms::from_doc_ids(&[2]);
    w.matching_terms(&seg, &mut ledger);
    assert_eq!(ledger.sorted_doc_ids(), vec![2]);
    let terms = ledger.terms_for_doc(2).unwrap();
    assert_eq!(terms.len(), 1);
    assert!(terms[0].term.same_term(&term("b")));
    assert_eq!(terms[0].score, 20);
}

#[test]
fn from_lists_validates_its_input() {
    let unsorted = vec![PostingList {
        term: term("a"),
        postings: vec![posting(3, 1), posting(1, 1)],
    }];
    assert!(SegmentReader::from_lists(100, unsorted).is_none());

    let out_of_range = vec![PostingList { term: term("a"), postings: vec![posting(7, 1)] }];
    assert!(SegmentReader::from_lists(5, out_of_range).is_none());

    let duplicated = vec![
        PostingList { term: term("a"), postings: vec![posting(1, 1)] },
        PostingList { term: term("a"), postings: vec![posting(2, 1)] },
    ];
    assert!(SegmentReader::from_lists(100, duplicated).is_none());

    assert!(SegmentReader::from_lists(u32::MAX, vec![]).is_none());
    let empty = SegmentReader::from_lists(100, vec![]).unwrap();
    assert_eq!(empty.num_docs(), 100);
    assert_eq!(Weight::Term(term("a")).count(&empty), 0);
}

#[test]
fn nested_boolean_weights_compose() {
    let seg = segment();
    let ab = Weight::And(Box::new(Weight::Term(term("a"))), Box::new(Weight::Term(term("b"))));
    let w = Weight::Or(Box::new(ab), Box::new(Weight::Term(term("a"))));
    assert_eq!(drive(&w, &seg), vec![(1, 10), (3, 100)]);
    assert_eq!(w.count(&seg), 2);
}
