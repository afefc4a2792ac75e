//! Query-evaluation core of a segmented full-text search engine.
//!
//! A logical query, specialized against one immutable segment of the index,
//! becomes a [`weight::Weight`]; the weight builds a [`scorer::Scorer`], a
//! cursor that enumerates the matching documents of that segment in strictly
//! increasing order together with their relevance scores.  A
//! [`ledger::MatchingTerms`] ledger can additionally record, for a fixed set
//! of documents, which terms matched and with what score contribution.

pub mod term;
pub mod postings;
pub mod ledger;
pub mod segment;
pub mod scorer;
pub mod weight;
pub mod laws;

use vstd::prelude::*;

verus! {

/// Segment-local document identifier.  Unique within one segment, totally
/// ordered; a scorer enumerates these in strictly increasing order.
pub type DocId = u32;

/// Quantized relevance contribution of a term (or a combination of terms) to
/// one document.  Scores are stored per posting by the segment; boolean
/// combinations add them with saturation.
pub type Score = u32;

/// Sentinel document identifier: returned by a scorer's `doc` when the cursor
/// is not positioned on a document.  No document of a well-formed segment
/// carries this identifier.
pub const TERMINATED: DocId = 0xffff_ffff;

} // verus!
