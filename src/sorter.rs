//! Ordering of alignment records by query name, then query start.
use vstd::prelude::*;
use vstd::multiset::group_multiset_axioms;
use vstd::seq_lib::group_to_multiset_ensures;
use crate::order::{bytes_le, bytes_less, bytes_lt, lemma_bytes_le_transitive, lemma_bytes_lt_asymmetric};
use crate::record::AlignmentRecord;

verus! {

/// Query starts never decrease along `s`.
pub open spec fn sorted_by_start<D>(s: Seq<AlignmentRecord<D>>) -> bool {
    forall|i: int, j: int|
        0 <= i < j < s.len() ==> #[trigger] s[i].query_start <= #[trigger] s[j].query_start
}

/// Query names never decrease along `s`.
pub open spec fn sorted_by_name<D>(s: Seq<AlignmentRecord<D>>) -> bool {
    forall|i: int, j: int|
        0 <= i < j < s.len() ==> bytes_le(#[trigger] s[i].query_name@, #[trigger] s[j].query_name@)
}

/// `s` is ordered by query name, and by query start among records of one query.
pub open spec fn sorted_by_name_then_start<D>(s: Seq<AlignmentRecord<D>>) -> bool {
    &&& sorted_by_name(s)
    &&& forall|i: int, j: int|
        0 <= i < j < s.len() && #[trigger] s[i].query_name@ == #[trigger] s[j].query_name@
            ==> s[i].query_start <= s[j].query_start
}

/// The key a sort orders records by.
pub enum SortKey {
    Start,
    Name,
}

/// Record `a` goes strictly before record `b` under `key`.
pub open spec fn goes_before<D>(key: SortKey, a: AlignmentRecord<D>, b: AlignmentRecord<D>) -> bool {
    match key {
        SortKey::Start => a.query_start < b.query_start,
        SortKey::Name => bytes_lt(a.query_name@, b.query_name@),
    }
}

/// `t` with `x` inserted after the last record that `x` does not go before:
/// `x` passes, from the back, only records it strictly goes before.
pub open spec fn insert_stable<D>(key: SortKey, t: Seq<AlignmentRecord<D>>, x: AlignmentRecord<D>) -> Seq<
    AlignmentRecord<D>,
>
    decreases t.len(),
{
    if t.len() > 0 && goes_before(key, x, t.last()) {
        insert_stable(key, t.drop_last(), x).push(t.last())
    } else {
        t.push(x)
    }
}

/// The stable sort of `s` under `key`: its records inserted one by one, in
/// order, each after the records with an equal key that came before it.
pub open spec fn stable_sort<D>(key: SortKey, s: Seq<AlignmentRecord<D>>) -> Seq<AlignmentRecord<D>>
    decreases s.len(),
{
    if s.len() == 0 {
        s
    } else {
        insert_stable(key, stable_sort(key, s.drop_last()), s.last())
    }
}

/// No record of `s` goes before an earlier one under `key`.
pub open spec fn in_order<D>(key: SortKey, s: Seq<AlignmentRecord<D>>) -> bool {
    forall|i: int, j: int| 0 <= i < j < s.len() ==> !goes_before(key, #[trigger] s[j], #[trigger] s[i])
}

/// Sorting records that are already in order under `key` leaves them as
/// they are; in particular, sorting twice is sorting once.
pub proof fn lemma_stable_sort_of_ordered<D>(key: SortKey, s: Seq<AlignmentRecord<D>>)
    requires
        in_order(key, s),
    ensures
        stable_sort(key, s) == s,
    decreases s.len(),
{
    if s.len() > 0 {
        let t = s.drop_last();
        assert(in_order(key, t)) by {
            assert forall|i: int, j: int| 0 <= i < j < t.len() implies
                !goes_before(key, #[trigger] t[j], #[trigger] t[i]) by {
                assert(t[i] == s[i] && t[j] == s[j]);
            }
        }
        lemma_stable_sort_of_ordered(key, t);
        if t.len() > 0 {
            assert(t.last() == s[s.len() - 2]);
            assert(!goes_before(key, s.last(), t.last()));
        }
        assert(t.push(s.last()) =~= s);
    }
}

/// Moving the first element of `rest` to `done` keeps what the two hold together.
proof fn lemma_take_first<A>(done: Seq<A>, before: Seq<A>, rest: Seq<A>)
    requires
        before.len() > 0,
        rest == before.remove(0),
    ensures
        done.to_multiset().insert(before[0]).add(rest.to_multiset())
            == done.to_multiset().add(before.to_multiset()),
{
    broadcast use group_to_multiset_ensures, group_multiset_axioms;

    let x = before[0];
    assert(before.contains(x));
    assert(before.to_multiset().count(x) > 0);
    assert(rest.to_multiset() == before.to_multiset().remove(x));
    assert(done.to_multiset().insert(x).add(rest.to_multiset())
        =~= done.to_multiset().add(before.to_multiset()));
}

/// One more record of `s` taken: its stable sort is the previous one with
/// that record inserted.
proof fn lemma_next_prefix<D>(key: SortKey, s: Seq<AlignmentRecord<D>>, k: int)
    requires
        0 <= k < s.len(),
    ensures
        stable_sort(key, s.take(k + 1)) == insert_stable(key, stable_sort(key, s.take(k)), s[k]),
{
    assert(s.take(k + 1).drop_last() =~= s.take(k));
}

/// Passing one more record from the back while looking for `x`'s place.
proof fn lemma_insert_step<D>(key: SortKey, t: Seq<AlignmentRecord<D>>, x: AlignmentRecord<D>, pos: int)
    requires
        0 < pos <= t.len(),
        goes_before(key, x, t[pos - 1]),
        insert_stable(key, t, x) == insert_stable(key, t.take(pos), x) + t.skip(pos),
    ensures
        insert_stable(key, t, x) == insert_stable(key, t.take(pos - 1), x) + t.skip(pos - 1),
{
    assert(t.take(pos).drop_last() =~= t.take(pos - 1));
    assert(t.take(pos).last() == t[pos - 1]);
    assert(insert_stable(key, t.take(pos), x) == insert_stable(key, t.take(pos - 1), x).push(t[pos - 1]));
    assert(insert_stable(key, t.take(pos - 1), x).push(t[pos - 1]) + t.skip(pos)
        =~= insert_stable(key, t.take(pos - 1), x) + t.skip(pos - 1));
}

/// Where the search for `x`'s place stops, `x` is inserted.
proof fn lemma_insert_stop<D>(key: SortKey, t: Seq<AlignmentRecord<D>>, x: AlignmentRecord<D>, pos: int)
    requires
        0 <= pos <= t.len(),
        pos == 0 || !goes_before(key, x, t[pos - 1]),
        insert_stable(key, t, x) == insert_stable(key, t.take(pos), x) + t.skip(pos),
    ensures
        insert_stable(key, t, x) == t.insert(pos, x),
{
    if pos == 0 {
        assert(t.take(0) =~= Seq::<AlignmentRecord<D>>::empty());
    } else {
        assert(t.take(pos).last() == t[pos - 1]);
    }
    assert(insert_stable(key, t.take(pos), x) == t.take(pos).push(x));
    assert(t.take(pos).push(x) + t.skip(pos) =~= t.insert(pos, x));
}

/// The records of a run, in the order in which they are processed.
pub struct PAFSorter<D>(pub Vec<AlignmentRecord<D>>);

impl<D> PAFSorter<D> {
    /// Orders the records by query start, keeping the records they hold.
    pub fn sort_by_query_start(&mut self)
        ensures
            final(self).0@ == stable_sort(SortKey::Start, old(self).0@),
            final(self).0@.to_multiset() == old(self).0@.to_multiset(),
            sorted_by_start(final(self).0@),
    {
        broadcast use group_to_multiset_ensures, group_multiset_axioms;

        let ghost input = self.0@;
        let mut rest: Vec<AlignmentRecord<D>> = Vec::new();
        std::mem::swap(&mut rest, &mut self.0);
        let mut sorted: Vec<AlignmentRecord<D>> = Vec::new();
        let ghost mut taken: int = 0;
        assert(rest@ =~= input.subrange(0, input.len() as int));
        assert(input.take(0) =~= Seq::<AlignmentRecord<D>>::empty());
        while rest.len() > 0
            invariant
                sorted@.to_multiset().add(rest@.to_multiset()) == input.to_multiset(),
                sorted_by_start(sorted@),
                0 <= taken <= input.len(),
                rest@ == input.subrange(taken, input.len() as int),
                sorted@ == stable_sort(SortKey::Start, input.take(taken)),
            decreases rest.len(),
        {
            let ghost before = rest@;
            let x = rest.remove(0);
            proof {
                lemma_take_first(sorted@, before, rest@);
                lemma_next_prefix(SortKey::Start, input, taken);
                taken = taken + 1;
                assert(rest@ =~= input.subrange(taken, input.len() as int));
            }
            let mut pos: usize = sorted.len();
            assert(sorted@.take(pos as int) =~= sorted@);
            assert(sorted@.skip(pos as int) =~= Seq::<AlignmentRecord<D>>::empty());
            while pos > 0 && x.query_start < sorted[pos - 1].query_start
                invariant
                    pos <= sorted.len(),
                    forall|j: int| pos <= j < sorted.len() ==> x.query_start < #[trigger] sorted@[j].query_start,
                    insert_stable(SortKey::Start, sorted@, x)
                        == insert_stable(SortKey::Start, sorted@.take(pos as int), x) + sorted@.skip(pos as int),
                decreases pos,
            {
                proof {
                    lemma_insert_step(SortKey::Start, sorted@, x, pos as int);
                }
                pos = pos - 1;
            }
            let ghost old_sorted = sorted@;
            proof {
                lemma_insert_stop(SortKey::Start, sorted@, x, pos as int);
            }
            sorted.insert(pos, x);
            assert forall|i: int, j: int| 0 <= i < j < sorted@.len() implies
                #[trigger] sorted@[i].query_start <= #[trigger] sorted@[j].query_start by {
                if j < pos {
                } else if j == pos {
                    if i < pos - 1 {
                        assert(old_sorted[i].query_start <= old_sorted[pos - 1].query_start);
                    }
                } else if i < pos {
                    assert(old_sorted[i].query_start <= old_sorted[j - 1].query_start);
                } else if i == pos {
                    assert(x.query_start < old_sorted[j - 1].query_start);
                } else {
                    assert(old_sorted[i - 1].query_start <= old_sorted[j - 1].query_start);
                }
            }
            proof {
                vstd::seq_lib::to_multiset_insert(old_sorted, pos as int, x);
            }
        }
        assert(input.take(taken) =~= input);
        self.0 = sorted;
    }

    /// Orders the records by query name, keeping the records they hold.
    /// Records that were in query-start order end up in (name, start) order.
    pub fn sort_by_query_name(&mut self)
        ensures
            final(self).0@ == stable_sort(SortKey::Name, old(self).0@),
            final(self).0@.to_multiset() == old(self).0@.to_multiset(),
            sorted_by_name(final(self).0@),
            sorted_by_start(old(self).0@) ==> sorted_by_name_then_start(final(self).0@),
    {
        broadcast use group_to_multiset_ensures, group_multiset_axioms;

        let ghost input = self.0@;
        let ghost by_start = sorted_by_start(input);
        let mut rest: Vec<AlignmentRecord<D>> = Vec::new();
        std::mem::swap(&mut rest, &mut self.0);
        let mut sorted: Vec<AlignmentRecord<D>> = Vec::new();
        let ghost mut taken: int = 0;
        assert(rest@ =~= input.subrange(0, input.len() as int));
        assert(input.take(0) =~= Seq::<AlignmentRecord<D>>::empty());
        while rest.len() > 0
            invariant
                sorted@.to_multiset().add(rest@.to_multiset()) == input.to_multiset(),
                sorted_by_name(sorted@),
                sorted@ == stable_sort(SortKey::Name, input.take(taken)),
                0 <= taken <= input.len(),
                rest@ == input.subrange(taken, input.len() as int),
                by_start == sorted_by_start(input),
                by_start ==> sorted_by_name_then_start(sorted@),
                by_start ==> forall|i: int, j: int|
                    0 <= i < sorted@.len() && 0 <= j < rest@.len()
                        ==> #[trigger] sorted@[i].query_start <= #[trigger] rest@[j].query_start,
            decreases rest.len(),
        {
            let ghost before = rest@;
            let x = rest.remove(0);
            proof {
                lemma_take_first(sorted@, before, rest@);
                lemma_next_prefix(SortKey::Name, input, taken);
                taken = taken + 1;
                assert(rest@ =~= input.subrange(taken, input.len() as int));
                if by_start {
                    assert forall|i: int| 0 <= i < sorted@.len() implies
                        #[trigger] sorted@[i].query_start <= x.query_start by {
                        assert(before[0] == x);
                    }
                    assert forall|j: int| 0 <= j < rest@.len() implies
                        x.query_start <= #[trigger] rest@[j].query_start by {
                        assert(input[taken - 1] == x);
                        assert(rest@[j] == input[taken + j]);
                    }
                }
            }
            let mut pos: usize = sorted.len();
            assert(sorted@.take(pos as int) =~= sorted@);
            assert(sorted@.skip(pos as int) =~= Seq::<AlignmentRecord<D>>::empty());
            while pos > 0 && bytes_less(&x.query_name, &sorted[pos - 1].query_name)
                invariant
                    pos <= sorted.len(),
                    forall|j: int| pos <= j < sorted.len()
                        ==> bytes_lt(x.query_name@, #[trigger] sorted@[j].query_name@),
                    insert_stable(SortKey::Name, sorted@, x)
                        == insert_stable(SortKey::Name, sorted@.take(pos as int), x) + sorted@.skip(pos as int),
                decreases pos,
            {
                proof {
                    lemma_insert_step(SortKey::Name, sorted@, x, pos as int);
                }
                pos = pos - 1;
            }
            let ghost old_sorted = sorted@;
            proof {
                lemma_insert_stop(SortKey::Name, sorted@, x, pos as int);
            }
            sorted.insert(pos, x);
            proof {
                vstd::seq_lib::to_multiset_insert(old_sorted, pos as int, x);
                assert forall|i: int, j: int| 0 <= i < j < sorted@.len() implies
                    bytes_le(#[trigger] sorted@[i].query_name@, #[trigger] sorted@[j].query_name@)
                    && (by_start && sorted@[i].query_name@ == sorted@[j].query_name@
                        ==> sorted@[i].query_start <= sorted@[j].query_start) by {
                    if j < pos {
                        assert(bytes_le(old_sorted[i].query_name@, old_sorted[j].query_name@));
                    } else if j == pos {
                        if i < pos - 1 {
                            lemma_bytes_le_transitive(
                                old_sorted[i].query_name@,
                                old_sorted[pos - 1].query_name@,
                                x.query_name@,
                            );
                        }
                    } else if i < pos {
                        assert(bytes_le(old_sorted[i].query_name@, old_sorted[j - 1].query_name@));
                    } else if i == pos {
                        lemma_bytes_lt_asymmetric(x.query_name@, old_sorted[j - 1].query_name@);
                        lemma_bytes_lt_asymmetric(x.query_name@, x.query_name@);
                    } else {
                        assert(bytes_le(old_sorted[i - 1].query_name@, old_sorted[j - 1].query_name@));
                    }
                }
            }
        }
        assert(input.take(taken) =~= input);
        self.0 = sorted;
    }
}

} // verus!
