use segscore::ledger::MatchingTerms;
use segscore::term::Term;

fn term(s: &str) -> Term {
    Term::new(0, s.as_bytes().to_vec())
}

#[test]
fn sorted_iteration_ignores_construction_order() {
    let ledger = MatchingTerms::from_doc_ids(&[5, 1, 3]);
    assert_eq!(ledger.sorted_doc_ids(), vec![1, 3, 5]);
}

#[test]
fn duplicates_collapse_to_one_entry() {
    let ledger = MatchingTerms::from_doc_ids(&[2, 2, 7, 2]);
    assert_eq!(ledger.sorted_doc_ids(), vec![2, 7]);
}

#[test]
fn empty_document_set() {
    let mut ledger = MatchingTerms::from_doc_ids(&[]);
    assert_eq!(ledger.sorted_doc_ids(), Vec::<u32>::new());
    assert!(ledger.terms_for_doc(0).is_none());
    ledger.add_term(0, term("foo"), 1);
    assert!(ledger.terms_for_doc(0).is_none());
}

#[test]
fn untracked_document_is_a_silent_no_op() {
    let mut ledger = MatchingTerms::from_doc_ids(&[1, 4]);
    ledger.add_term(3, term("foo"), 9);
    assert!(ledger.terms_for_doc(3).is_none());
    assert_eq!(ledger.terms_for_doc(1).unwrap().len(), 0);
    assert_eq!(ledger.terms_for_doc(4).unwrap().len(), 0);
    assert_eq!(ledger.sorted_doc_ids(), vec![1, 4]);
}

#[test]
fn re_adding_a_term_overwrites_its_score() {
    let mut ledger = MatchingTerms::from_doc_ids(&[1]);
    ledger.add_term(1, term("foo"), 10);
    ledger.add_term(1, term("foo"), 20);
    let terms = ledger.terms_for_doc(1).unwrap();
    assert_eq!(terms.len(), 1);
    assert!(terms[0].term.same_term(&term("foo")));
    assert_eq!(terms[0].score, 20);
}

#[test]
fn distinct_terms_accumulate() {
    let mut ledger = MatchingTerms::from_doc_ids(&[1]);
    ledger.add_term(1, term("foo"), 10);
    ledger.add_term(1, term("bar"), 20);
    let terms = ledger.terms_for_doc(1).unwrap();
    assert_eq!(terms.len(), 2);
    let mut foo_score = None;
    let mut bar_score = None;
    for ts in terms.iter() {
        if ts.term.same_term(&term("foo")) {
            foo_score = Some(ts.score);
        }
        if ts.term.same_term(&term("bar")) {
            bar_score = Some(ts.score);
        }
    }
    assert_eq!(foo_score, Some(10));
    assert_eq!(bar_score, Some(20));
}

#[test]
fn terms_for_doc_distinguishes_tracked_from_absent() {
    let mut ledger = MatchingTerms::from_doc_ids(&[8]);
    assert!(ledger.terms_for_doc(8).is_some());
    assert!(ledger.terms_for_doc(9).is_none());
    ledger.add_term(8, term("x"), 5);
    assert_eq!(ledger.terms_for_doc(8).unwrap().len(), 1);
}

#[test]
fn terms_with_same_bytes_but_different_fields_are_distinct() {
    let mut ledger = MatchingTerms::from_doc_ids(&[1]);
    ledger.add_term(1, Term::new(0, b"foo".to_vec()), 10);
    ledger.add_term(1, Term::new(1, b"foo".to_vec()), 20);
    assert_eq!(ledger.terms_for_doc(1).unwrap().len(), 2);
}
