//! The two ways of reporting divergence: one row per admissible interval,
//! or the weighted terms of the length-weighted mean.
use vstd::prelude::*;
use crate::order::{bytes_equal, bytes_le, lemma_bytes_lt_total};
use vstd::multiset::group_multiset_axioms;
use vstd::seq_lib::group_to_multiset_ensures;
use crate::sorter::{sorted_by_name_then_start, stable_sort, PAFSorter, SortKey};
use crate::record::{is_row_of, AlignmentRecord, DivergenceError, DivergenceRow};

verus! {

/// Record `a` runs into record `b`, its successor: both are on the same query
/// and `a` ends after `b` starts. Records of different queries never overlap,
/// whatever their coordinates.
pub open spec fn overlaps<D>(a: AlignmentRecord<D>, b: AlignmentRecord<D>) -> bool {
    a.query_name@ == b.query_name@ && a.query_end > b.query_start
}

/// Record `i` of the ordered records `s` is reported: it has a successor and
/// does not run into it. The last record never is.
pub open spec fn admissible<D>(s: Seq<AlignmentRecord<D>>, i: int) -> bool {
    0 <= i && i + 1 < s.len() && !overlaps(s[i], s[i + 1])
}

/// Positions of the admissible records among the first `k`, in order.
pub open spec fn admissible_upto<D>(s: Seq<AlignmentRecord<D>>, k: int) -> Seq<int>
    decreases k,
{
    if k <= 0 {
        Seq::empty()
    } else if admissible(s, k - 1) {
        admissible_upto(s, k - 1).push(k - 1)
    } else {
        admissible_upto(s, k - 1)
    }
}

/// Positions of the admissible records of `s`, in order.
pub open spec fn admissible_positions<D>(s: Seq<AlignmentRecord<D>>) -> Seq<int> {
    admissible_upto(s, s.len() as int)
}

/// Some admissible record of `s` lacks its divergence.
pub open spec fn admissible_missing_de<D>(s: Seq<AlignmentRecord<D>>) -> bool {
    exists|i: int| admissible(s, i) && (#[trigger] s[i]).de is None
}

/// `rows` are the rows of the admissible records of `s`, in order.
pub open spec fn rows_of<D>(s: Seq<AlignmentRecord<D>>, rows: Seq<DivergenceRow<D>>) -> bool {
    let p = admissible_positions(s);
    &&& rows.len() == p.len()
    &&& forall|m: int| 0 <= m < rows.len() ==> is_row_of(#[trigger] rows[m], s[p[m]])
}

/// The outcome of per-interval reporting over the ordered records `s`.
pub open spec fn individual_outcome<D>(
    s: Seq<AlignmentRecord<D>>,
    r: Result<Vec<DivergenceRow<D>>, DivergenceError>,
) -> bool {
    match r {
        Ok(rows) => !admissible_missing_de(s) && rows_of(s, rows@),
        Err(e) => admissible_missing_de(s) && e == DivergenceError::MissingDivergenceField,
    }
}

/// What `admissible_upto` holds: increasing positions, each admissible and
/// below `k`, and every admissible position below `k`.
pub proof fn lemma_admissible_upto<D>(s: Seq<AlignmentRecord<D>>, k: int)
    requires
        0 <= k <= s.len(),
    ensures
        forall|m: int| 0 <= m < admissible_upto(s, k).len()
            ==> 0 <= #[trigger] admissible_upto(s, k)[m] < k
                && admissible(s, admissible_upto(s, k)[m]),
        forall|m: int, n: int| 0 <= m < n < admissible_upto(s, k).len()
            ==> #[trigger] admissible_upto(s, k)[m] < #[trigger] admissible_upto(s, k)[n],
        forall|i: int| 0 <= i < k && #[trigger] admissible(s, i)
            ==> admissible_upto(s, k).contains(i),
    decreases k,
{
    if k > 0 {
        lemma_admissible_upto(s, k - 1);
        let p = admissible_upto(s, k - 1);
        if admissible(s, k - 1) {
            assert forall|i: int| 0 <= i < k && #[trigger] admissible(s, i)
                implies admissible_upto(s, k).contains(i) by {
                if i < k - 1 {
                    let m = choose|m: int| 0 <= m < p.len() && p[m] == i;
                    assert(admissible_upto(s, k)[m] == i);
                } else {
                    assert(admissible_upto(s, k)[p.len() as int] == i);
                }
            }
        }
    }
}

/// Reports each admissible record of the ordered records `s`: one row per
/// record that has a successor and does not run into it on the same query.
/// Fails when such a record lacks its divergence.
pub fn select_rows<D: Copy>(s: &Vec<AlignmentRecord<D>>) -> (r: Result<Vec<DivergenceRow<D>>, DivergenceError>)
    ensures
        individual_outcome(s@, r),
{
    let mut rows: Vec<DivergenceRow<D>> = Vec::new();
    let mut i: usize = 0;
    while i + 1 < s.len()
        invariant
            i == 0 || i < s.len(),
            rows@.len() == admissible_upto(s@, i as int).len(),
            forall|m: int| 0 <= m < rows@.len()
                ==> is_row_of(#[trigger] rows@[m], s@[admissible_upto(s@, i as int)[m]]),
            forall|j: int| 0 <= j < i && #[trigger] admissible(s@, j) ==> s@[j].de is Some,
        decreases s.len() - i,
    {
        let r1 = &s[i];
        let r2 = &s[i + 1];
        let overlapping = r1.query_end > r2.query_start
            && bytes_equal(&r1.query_name, &r2.query_name);
        if !overlapping {
            if r1.de.is_none() {
                assert(admissible(s@, i as int));
                return Err(DivergenceError::MissingDivergenceField);
            }
            rows.push(r1.to_row());
        }
        i = i + 1;
    }
    proof {
        let n = s@.len() as int;
        if n > 0 {
            assert forall|j: int| admissible(s@, j) implies #[trigger] s@[j].de is Some by {
                assert(j < i);
            }
            if i < n {
                assert(!admissible(s@, i as int));
                assert(admissible_upto(s@, n) == admissible_upto(s@, i as int));
            }
        }
    }
    Ok(rows)
}

/// The order in which per-interval mode reads the records: stably sorted
/// by query start, then stably by query name.
pub open spec fn individual_order<D>(s: Seq<AlignmentRecord<D>>) -> Seq<AlignmentRecord<D>> {
    stable_sort(SortKey::Name, stable_sort(SortKey::Start, s))
}

/// Whether every record carries its divergence.
pub fn all_divergences_present<D>(records: &Vec<AlignmentRecord<D>>) -> (r: bool)
    ensures
        r == all_have_de(records@),
{
    let mut i: usize = 0;
    while i < records.len()
        invariant
            i <= records.len(),
            forall|k: int| 0 <= k < i ==> (#[trigger] records@[k]).de is Some,
        decreases records.len() - i,
    {
        if records[i].de.is_none() {
            return false;
        }
        i = i + 1;
    }
    true
}

/// Per-interval mode: orders the records by query name, then query start,
/// and reports each admissible record in that order. A record without its
/// divergence, wherever it stands, fails the whole run, and no row is
/// returned.
pub fn paf_individual<D: Copy>(records: Vec<AlignmentRecord<D>>) -> (r: Result<Vec<DivergenceRow<D>>, DivergenceError>)
    ensures
        r is Err <==> !all_have_de(records@),
        r matches Err(e) ==> e == DivergenceError::MissingDivergenceField,
        r matches Ok(rows) ==> {
            &&& sorted_by_name_then_start(individual_order(records@))
            &&& rows_of(individual_order(records@), rows@)
        },
{
    if !all_divergences_present(&records) {
        return Err(DivergenceError::MissingDivergenceField);
    }
    let ghost input = records@;
    let mut sorter = PAFSorter(records);
    sorter.sort_by_query_start();
    sorter.sort_by_query_name();
    proof {
        lemma_aggregate_order_free(sorter.0@, input);
        assert(!admissible_missing_de(sorter.0@));
    }
    select_rows(&sorter.0)
}

/// Sum of the alignment block lengths of `s`.
pub open spec fn total_len<D>(s: Seq<AlignmentRecord<D>>) -> int
    decreases s.len(),
{
    if s.len() == 0 {
        0
    } else {
        total_len(s.drop_last()) + s.last().alignment_block_len
    }
}

/// Every record of `s` carries its divergence.
pub open spec fn all_have_de<D>(s: Seq<AlignmentRecord<D>>) -> bool {
    forall|i: int| 0 <= i < s.len() ==> (#[trigger] s[i]).de is Some
}

/// The weighted term of one record: its weight and its divergence.
pub open spec fn term_of<D>(r: AlignmentRecord<D>) -> (u32, D) {
    (r.alignment_block_len, r.de.unwrap())
}

/// The weighted terms of `s`, in order.
pub open spec fn terms_of<D>(s: Seq<AlignmentRecord<D>>) -> Seq<(u32, D)> {
    s.map_values(|r: AlignmentRecord<D>| term_of(r))
}

/// The terms of the length-weighted mean divergence: one weight and
/// divergence per record, and the sum of the weights. The mean is
/// `sum(weight * de) / total_len`, undefined when `total_len` is zero.
pub struct WeightedTerms<D> {
    pub terms: Vec<(u32, D)>,
    pub total_len: u128,
}

/// Aggregate mode: the weighted terms of every record, in input order.
/// Fails when any record lacks its divergence.
pub fn paf_aggregate<D: Copy>(records: &Vec<AlignmentRecord<D>>) -> (r: Result<WeightedTerms<D>, DivergenceError>)
    ensures
        r is Ok <==> all_have_de(records@),
        r matches Err(e) ==> e == DivergenceError::MissingDivergenceField,
        r matches Ok(w) ==> {
            &&& w.total_len == total_len(records@)
            &&& w.terms@ == terms_of(records@)
            &&& w.terms@.len() == records@.len()
            &&& forall|i: int| 0 <= i < records@.len() ==>
                #[trigger] w.terms@[i] == (records@[i].alignment_block_len, records@[i].de.unwrap())
        },
{
    let mut terms: Vec<(u32, D)> = Vec::new();
    let mut total: u128 = 0;
    let mut i: usize = 0;
    while i < records.len()
        invariant
            i <= records.len(),
            total == total_len(records@.take(i as int)),
            total <= i * 0xffff_ffff,
            all_have_de(records@.take(i as int)),
            terms@.len() == i,
            forall|k: int| 0 <= k < i ==>
                #[trigger] terms@[k] == (records@[k].alignment_block_len, records@[k].de.unwrap()),
        decreases records.len() - i,
    {
        let r = &records[i];
        match r.de {
            Some(d) => {
                terms.push((r.alignment_block_len, d));
                assert(records@.take(i + 1).drop_last() =~= records@.take(i as int));
                total = total + r.alignment_block_len as u128;
                i = i + 1;
                assert(all_have_de(records@.take(i as int))) by {
                    assert forall|k: int| 0 <= k < i implies (#[trigger] records@.take(i as int)[k]).de is Some by {
                        if k < i - 1 {
                            assert(records@.take(i as int)[k] == records@.take(i - 1)[k]);
                        }
                    }
                }
            },
            None => {
                assert(!all_have_de(records@)) by {
                    assert(records@[i as int].de is None);
                }
                return Err(DivergenceError::MissingDivergenceField);
            },
        }
    }
    assert(records@.take(i as int) =~= records@);
    assert(terms@ =~= terms_of(records@));
    Ok(WeightedTerms { terms, total_len: total })
}

/// Rows reported over records in (name, start) order come out in
/// (name, start) order.
pub proof fn lemma_rows_in_order<D>(s: Seq<AlignmentRecord<D>>, rows: Seq<DivergenceRow<D>>)
    requires
        sorted_by_name_then_start(s),
        rows_of(s, rows),
    ensures
        forall|a: int, b: int| 0 <= a < b < rows.len() ==> {
            &&& bytes_le(#[trigger] rows[a].query_name@, #[trigger] rows[b].query_name@)
            &&& rows[a].query_name@ == rows[b].query_name@ ==> rows[a].query_start <= rows[b].query_start
        },
{
    let p = admissible_positions(s);
    lemma_admissible_upto(s, s.len() as int);
    assert forall|a: int, b: int| 0 <= a < b < rows.len() implies {
        &&& bytes_le(#[trigger] rows[a].query_name@, #[trigger] rows[b].query_name@)
        &&& rows[a].query_name@ == rows[b].query_name@ ==> rows[a].query_start <= rows[b].query_start
    } by {
        assert(is_row_of(rows[a], s[p[a]]));
        assert(is_row_of(rows[b], s[p[b]]));
        assert(p[a] < p[b]);
        assert(bytes_le(s[p[a]].query_name@, s[p[b]].query_name@));
    }
}

/// No two rows reported over records in (name, start) order overlap on the
/// same query: the earlier ends at or before the later starts.
pub proof fn lemma_rows_disjoint<D>(s: Seq<AlignmentRecord<D>>, rows: Seq<DivergenceRow<D>>)
    requires
        sorted_by_name_then_start(s),
        rows_of(s, rows),
    ensures
        forall|a: int, b: int| 0 <= a < b < rows.len()
            && #[trigger] rows[a].query_name@ == #[trigger] rows[b].query_name@
            ==> rows[a].query_end <= rows[b].query_start,
{
    let p = admissible_positions(s);
    lemma_admissible_upto(s, s.len() as int);
    assert forall|a: int, b: int| 0 <= a < b < rows.len()
        && #[trigger] rows[a].query_name@ == #[trigger] rows[b].query_name@
        implies rows[a].query_end <= rows[b].query_start by {
        let i = p[a];
        let j = p[b];
        assert(is_row_of(rows[a], s[i]));
        assert(is_row_of(rows[b], s[j]));
        assert(i < j);
        assert(admissible(s, i));
        if i + 1 < j {
            assert(bytes_le(s[i].query_name@, s[i + 1].query_name@));
            assert(bytes_le(s[i + 1].query_name@, s[j].query_name@));
            lemma_bytes_lt_total(s[i].query_name@, s[i + 1].query_name@);
            assert(s[i + 1].query_start <= s[j].query_start);
        }
    }
}

/// The last record in order is never reported; with one record or none,
/// nothing is.
pub proof fn lemma_last_never_reported<D>(s: Seq<AlignmentRecord<D>>, rows: Seq<DivergenceRow<D>>)
    requires
        rows_of(s, rows),
    ensures
        forall|m: int| 0 <= m < rows.len() ==> #[trigger] admissible_positions(s)[m] + 1 < s.len(),
        s.len() <= 1 ==> rows.len() == 0,
{
    lemma_admissible_upto(s, s.len() as int);
    if s.len() <= 1 && rows.len() > 0 {
        assert(admissible(s, admissible_positions(s)[0]));
    }
}

/// `total_len` counts the removed record's length apart from the rest.
proof fn lemma_total_len_remove<D>(s: Seq<AlignmentRecord<D>>, i: int)
    requires
        0 <= i < s.len(),
    ensures
        total_len(s) == total_len(s.remove(i)) + s[i].alignment_block_len,
    decreases s.len(),
{
    if i == s.len() - 1 {
        assert(s.remove(i) =~= s.drop_last());
    } else {
        lemma_total_len_remove(s.drop_last(), i);
        assert(s.remove(i).drop_last() =~= s.drop_last().remove(i));
        assert(s.remove(i).last() == s.last());
    }
}

/// Reordering the records changes neither the total weight, nor whether the
/// aggregate succeeds, nor the weighted terms up to their order.
pub proof fn lemma_aggregate_order_free<D>(a: Seq<AlignmentRecord<D>>, b: Seq<AlignmentRecord<D>>)
    requires
        a.to_multiset() == b.to_multiset(),
    ensures
        total_len(a) == total_len(b),
        all_have_de(a) == all_have_de(b),
        terms_of(a).to_multiset() == terms_of(b).to_multiset(),
    decreases a.len(),
{
    broadcast use group_to_multiset_ensures, group_multiset_axioms;

    assert forall|i: int| 0 <= i < a.len() implies exists|j: int| 0 <= j < b.len() && b[j] == #[trigger] a[i] by {
        assert(a.contains(a[i]));
        assert(a.to_multiset().count(a[i]) > 0);
        assert(b.contains(a[i]));
    }
    assert forall|j: int| 0 <= j < b.len() implies exists|i: int| 0 <= i < a.len() && a[i] == #[trigger] b[j] by {
        assert(b.contains(b[j]));
        assert(b.to_multiset().count(b[j]) > 0);
        assert(a.contains(b[j]));
    }
    if a.len() > 0 {
        let x = a.last();
        assert(a.contains(x));
        assert(a.to_multiset().count(x) > 0);
        assert(b.contains(x));
        let j = choose|j: int| 0 <= j < b.len() && b[j] == x;
        assert(a.drop_last() =~= a.remove(a.len() - 1));
        assert(a.drop_last().to_multiset() == b.remove(j).to_multiset());
        lemma_aggregate_order_free(a.drop_last(), b.remove(j));
        lemma_total_len_remove(b, j);
        let ta = terms_of(a);
        let tb = terms_of(b);
        assert(terms_of(a.drop_last()) =~= ta.drop_last());
        assert(ta.drop_last().push(ta.last()) =~= ta);
        assert(terms_of(b.remove(j)) =~= tb.remove(j));
        assert(tb.to_multiset().count(tb[j]) > 0) by {
            assert(tb.contains(tb[j]));
        }
        assert(ta.to_multiset() =~= tb.to_multiset());
    } else {
        assert(b.len() == 0) by {
            assert(b.to_multiset().len() == 0);
        }
        assert(terms_of(a) =~= terms_of(b));
    }
}

} // verus!
