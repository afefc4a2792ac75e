//! Indexed terms: the opaque (field, token) values a query matches against.

use vstd::prelude::*;

verus! {

/// An indexed token: the numeric identifier of the field it was indexed
/// under, together with the token's bytes.  Immutable and comparable.
pub struct Term {
    pub field: u32,
    pub bytes: Vec<u8>,
}

impl View for Term {
    type V = (int, Seq<u8>);

    open spec fn view(&self) -> (int, Seq<u8>) {
        (self.field as int, self.bytes@)
    }
}

impl Term {
    /// Builds the term for `bytes` indexed under `field`.
    pub fn new(field: u32, bytes: Vec<u8>) -> (t: Term)
        ensures
            t@ == (field as int, bytes@),
    {
        Term { field, bytes }
    }

    /// Structural copy of the term.
    pub fn duplicate(&self) -> (t: Term)
        ensures
            t@ == self@,
    {
        let mut out: Vec<u8> = Vec::new();
        let mut i: usize = 0;
        while i < self.bytes.len()
            invariant
                i <= self.bytes.len(),
                out@ == self.bytes@.take(i as int),
            decreases self.bytes.len() - i,
        {
            out.push(self.bytes[i]);
            assert(self.bytes@.take(i + 1) =~= self.bytes@.take(i as int).push(self.bytes@[i as int]));
            i = i + 1;
        }
        assert(out@ =~= self.bytes@);
        Term { field: self.field, bytes: out }
    }

    /// Whether `self` and `other` denote the same (field, token) pair.
    pub fn same_term(&self, other: &Term) -> (r: bool)
        ensures
            r == (self@ == other@),
    {
        if self.field != other.field {
            return false;
        }
        if self.bytes.len() != other.bytes.len() {
            assert(self@.1.len() != other@.1.len());
            return false;
        }
        let n = self.bytes.len();
        let mut i: usize = 0;
        while i < n
            invariant
                i <= n,
                n == self.bytes.len(),
                n == other.bytes.len(),
                forall|k: int| 0 <= k < i ==> self.bytes@[k] == other.bytes@[k],
            decreases n - i,
        {
            if self.bytes[i] != other.bytes[i] {
                assert(self@ == other@ ==> self@.1[i as int] == other@.1[i as int]);
                return false;
            }
            i = i + 1;
        }
        assert(self.bytes@ =~= other.bytes@);
        true
    }
}

} // verus!
