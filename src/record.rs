//! Alignment records and what the two modes hand back.
use vstd::prelude::*;

verus! {

/// One alignment of a query sequence against a reference, as a PAF reader
/// yields it. The divergence value `D` is carried through untouched: the
/// library decides which records count, the caller does the arithmetic.
pub struct AlignmentRecord<D> {
    /// Name of the query sequence, as bytes.
    pub query_name: Vec<u8>,
    /// Start of the aligned query interval `[query_start, query_end)`.
    pub query_start: u32,
    /// End of the aligned query interval.
    pub query_end: u32,
    /// Length of the alignment block, the record's weight.
    pub alignment_block_len: u32,
    /// Gap-compressed per-base divergence (`de` tag), if the record has one.
    pub de: Option<D>,
}

/// One line of per-interval output.
pub struct DivergenceRow<D> {
    /// Name of the query sequence, as bytes.
    pub query_name: Vec<u8>,
    /// Start of the reported query interval.
    pub query_start: u32,
    /// End of the reported query interval.
    pub query_end: u32,
    /// The record's divergence.
    pub de: D,
}

/// Why a run produced no result.
#[derive(Debug, PartialEq, Eq, Structural)]
pub enum DivergenceError {
    /// A record that had to be used carries no `de` tag.
    MissingDivergenceField,
}

/// `row` is the output row of record `r`, whose divergence is present.
pub open spec fn is_row_of<D>(row: DivergenceRow<D>, r: AlignmentRecord<D>) -> bool {
    &&& r.de is Some
    &&& row.query_name@ == r.query_name@
    &&& row.query_start == r.query_start
    &&& row.query_end == r.query_end
    &&& row.de == r.de.unwrap()
}

/// A copy of a name.
pub fn copy_name(name: &Vec<u8>) -> (r: Vec<u8>)
    ensures
        r@ == name@,
{
    let mut r: Vec<u8> = Vec::new();
    let mut i: usize = 0;
    while i < name.len()
        invariant
            i <= name.len(),
            r@ == name@.take(i as int),
        decreases name.len() - i,
    {
        r.push(name[i]);
        i = i + 1;
        assert(r@ =~= name@.take(i as int));
    }
    assert(name@.take(name.len() as int) =~= name@);
    r
}

impl<D: Copy> AlignmentRecord<D> {
    /// The output row of this record, whose divergence must be present.
    pub fn to_row(&self) -> (r: DivergenceRow<D>)
        requires
            self.de is Some,
        ensures
            is_row_of(r, *self),
    {
        let de = self.de.unwrap();
        DivergenceRow {
            query_name: copy_name(&self.query_name),
            query_start: self.query_start,
            query_end: self.query_end,
            de,
        }
    }
}

} // verus!
