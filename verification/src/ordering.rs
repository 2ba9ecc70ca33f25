//! Stable ordering of visible entities by order key, nearest first or
//! farthest first.

use vstd::prelude::*;
use crate::order_key::OrderKey;
use crate::visible_entities::VisibleEntity;

verus! {

/// Whether an entry with key `a` may stand before one with key `b`:
/// nearest first unless `descending`, then farthest first.
pub open spec fn in_order(a: OrderKey, b: OrderKey, descending: bool) -> bool {
    if descending {
        a.rank() >= b.rank()
    } else {
        a.rank() <= b.rank()
    }
}

/// Whether every entry of `s` may stand before every later one.
pub open spec fn is_ordered(s: Seq<VisibleEntity>, descending: bool) -> bool {
    forall|i: int, j: int|
        0 <= i < j < s.len() ==> in_order(#[trigger] s[i].order, #[trigger] s[j].order, descending)
}

/// `s` with `e` put behind the last entry that may stand before it.
pub open spec fn insert_stable(s: Seq<VisibleEntity>, e: VisibleEntity, descending: bool) -> Seq<
    VisibleEntity,
>
    decreases s.len(),
{
    if s.len() == 0 {
        seq![e]
    } else if in_order(s.last().order, e.order, descending) {
        s.push(e)
    } else {
        insert_stable(s.drop_last(), e, descending).push(s.last())
    }
}

/// The entries of `s` in order, entries of equal rank staying as they were met.
pub open spec fn sort_stable(s: Seq<VisibleEntity>, descending: bool) -> Seq<VisibleEntity>
    decreases s.len(),
{
    if s.len() == 0 {
        Seq::empty()
    } else {
        insert_stable(sort_stable(s.drop_last(), descending), s.last(), descending)
    }
}

/// The entries of `s` whose key has rank `rank`, as they stand in `s`.
pub open spec fn of_rank(s: Seq<VisibleEntity>, rank: int) -> Seq<VisibleEntity> {
    s.filter(|e: VisibleEntity| e.order.rank() == rank)
}

/// An ordered sequence stays ordered under stable insertion, which adds
/// exactly the new entry.
pub proof fn lemma_insert_stable(s: Seq<VisibleEntity>, e: VisibleEntity, descending: bool)
    requires
        is_ordered(s, descending),
    ensures
        is_ordered(insert_stable(s, e, descending), descending),
        insert_stable(s, e, descending).to_multiset() == s.to_multiset().insert(e),
        insert_stable(s, e, descending).len() == s.len() + 1,
    decreases s.len(),
{
    broadcast use vstd::seq_lib::group_to_multiset_ensures;

    let out = insert_stable(s, e, descending);
    if s.len() == 0 {
        assert(s =~= Seq::empty());
        assert(out =~= s.push(e));
    } else if in_order(s.last().order, e.order, descending) {
        assert forall|i: int, j: int| 0 <= i < j < out.len() implies in_order(
            #[trigger] out[i].order,
            #[trigger] out[j].order,
            descending,
        ) by {
            if j == s.len() && i < s.len() - 1 {
                assert(in_order(s[i].order, s[s.len() - 1].order, descending));
            }
        }
    } else {
        let head = s.drop_last();
        lemma_insert_stable(head, e, descending);
        let mid = insert_stable(head, e, descending);
        assert(s =~= head.push(s.last()));
        assert(mid.to_multiset().insert(s.last()) =~= s.to_multiset().insert(e));
        assert forall|i: int, j: int| 0 <= i < j < out.len() implies in_order(
            #[trigger] out[i].order,
            #[trigger] out[j].order,
            descending,
        ) by {
            if j == mid.len() {
                // every entry of `mid` is `e` or an entry of `head`
                assert(mid.to_multiset().count(mid[i]) > 0);
                if mid[i] != e {
                    assert(head.to_multiset().count(mid[i]) > 0);
                    let k = choose|k: int| 0 <= k < head.len() && head[k] == mid[i];
                    assert(in_order(s[k].order, s[s.len() - 1].order, descending));
                }
            } else {
                assert(is_ordered(mid, descending));
            }
        }
    }
}

/// Sorting gives an ordered sequence with the same entries, each as often as
/// before.
pub proof fn lemma_sort_stable(s: Seq<VisibleEntity>, descending: bool)
    ensures
        is_ordered(sort_stable(s, descending), descending),
        sort_stable(s, descending).to_multiset() == s.to_multiset(),
        sort_stable(s, descending).len() == s.len(),
    decreases s.len(),
{
    broadcast use vstd::seq_lib::group_to_multiset_ensures;

    if s.len() == 0 {
        assert(s =~= Seq::empty());
    } else {
        lemma_sort_stable(s.drop_last(), descending);
        lemma_insert_stable(sort_stable(s.drop_last(), descending), s.last(), descending);
        assert(s =~= s.drop_last().push(s.last()));
    }
}

/// Stable insertion touches the entries of one rank only by adding the new
/// entry behind them, if it is of that rank.
pub proof fn lemma_insert_keeps_ranks(s: Seq<VisibleEntity>, e: VisibleEntity, descending: bool, rank: int)
    ensures
        of_rank(insert_stable(s, e, descending), rank) == if e.order.rank() == rank {
            of_rank(s, rank).push(e)
        } else {
            of_rank(s, rank)
        },
    decreases s.len(),
{
    reveal(Seq::filter);
    let pred = |x: VisibleEntity| x.order.rank() == rank;
    if s.len() == 0 {
        assert(seq![e].drop_last() =~= s);
        assert(s.filter(pred) =~= Seq::empty());
    } else if in_order(s.last().order, e.order, descending) {
        assert(s.push(e).drop_last() =~= s);
    } else {
        let head = s.drop_last();
        lemma_insert_keeps_ranks(head, e, descending, rank);
        let mid = insert_stable(head, e, descending);
        assert(mid.push(s.last()).drop_last() =~= mid);
    }
}

/// Sorting is stable: the entries of each rank stand in the sorted sequence
/// in the order in which they stood before.
pub proof fn sort_stable_keeps_encounter_order(s: Seq<VisibleEntity>, descending: bool, rank: int)
    ensures
        of_rank(sort_stable(s, descending), rank) == of_rank(s, rank),
    decreases s.len(),
{
    reveal(Seq::filter);
    if s.len() > 0 {
        sort_stable_keeps_encounter_order(s.drop_last(), descending, rank);
        lemma_insert_keeps_ranks(sort_stable(s.drop_last(), descending), s.last(), descending, rank);
    }
}

/// A sequence without an entry of some rank has nothing of that rank.
pub proof fn lemma_of_rank_absent(s: Seq<VisibleEntity>, rank: int)
    requires
        forall|i: int| 0 <= i < s.len() ==> (#[trigger] s[i]).order.rank() != rank,
    ensures
        of_rank(s, rank).len() == 0,
    decreases s.len(),
{
    reveal(Seq::filter);
    if s.len() > 0 {
        assert(s[s.len() - 1].order.rank() != rank);
        assert forall|i: int| 0 <= i < s.drop_last().len() implies (#[trigger] s.drop_last()[i]).order.rank()
            != rank by {
            assert(s.drop_last()[i] == s[i]);
        }
        lemma_of_rank_absent(s.drop_last(), rank);
    }
}

/// Two ordered sequences that hold, for each rank, the same entries in the
/// same order are one and the same.
pub proof fn lemma_ordered_is_unique(x: Seq<VisibleEntity>, y: Seq<VisibleEntity>, descending: bool)
    requires
        is_ordered(x, descending),
        is_ordered(y, descending),
        forall|rank: int| of_rank(x, rank) == of_rank(y, rank),
    ensures
        x == y,
    decreases x.len(),
{
    reveal(Seq::filter);
    if x.len() == 0 || y.len() == 0 {
        if x.len() > 0 {
            assert(of_rank(x, x.last().order.rank()) == of_rank(y, x.last().order.rank()));
        }
        if y.len() > 0 {
            assert(of_rank(x, y.last().order.rank()) == of_rank(y, y.last().order.rank()));
        }
        assert(x =~= y);
    } else {
        let rx = x.last().order.rank();
        let ry = y.last().order.rank();
        assert(of_rank(x, rx) == of_rank(y, rx));
        assert(of_rank(x, ry) == of_rank(y, ry));
        if rx != ry {
            if forall|i: int| 0 <= i < y.len() ==> (#[trigger] y[i]).order.rank() != rx {
                lemma_of_rank_absent(y, rx);
            }
            if forall|i: int| 0 <= i < x.len() ==> (#[trigger] x[i]).order.rank() != ry {
                lemma_of_rank_absent(x, ry);
            }
            let j = choose|j: int| 0 <= j < y.len() && (#[trigger] y[j]).order.rank() == rx;
            let i = choose|i: int| 0 <= i < x.len() && (#[trigger] x[i]).order.rank() == ry;
            assert(in_order(y[j].order, y[y.len() - 1].order, descending));
            assert(in_order(x[i].order, x[x.len() - 1].order, descending));
        }
        assert(x.last() == of_rank(x, rx).last());
        assert(y.last() == of_rank(y, rx).last());
        let xs = x.drop_last();
        let ys = y.drop_last();
        assert forall|rank: int| of_rank(xs, rank) == of_rank(ys, rank) by {
            assert(of_rank(x, rank) == of_rank(y, rank));
            if rank == rx {
                assert(of_rank(xs, rank) =~= of_rank(x, rank).drop_last());
                assert(of_rank(ys, rank) =~= of_rank(y, rank).drop_last());
            }
        }
        assert forall|i: int, j: int| 0 <= i < j < xs.len() implies in_order(
            #[trigger] xs[i].order,
            #[trigger] xs[j].order,
            descending,
        ) by {
            assert(in_order(x[i].order, x[j].order, descending));
        }
        assert forall|i: int, j: int| 0 <= i < j < ys.len() implies in_order(
            #[trigger] ys[i].order,
            #[trigger] ys[j].order,
            descending,
        ) by {
            assert(in_order(y[i].order, y[j].order, descending));
        }
        lemma_ordered_is_unique(xs, ys, descending);
        assert(x =~= xs.push(x.last()));
        assert(y =~= ys.push(y.last()));
    }
}

/// What sorting gives is the one sequence that is ordered and holds, for
/// each rank, the entries of `s` of that rank as they stand in `s`.
pub proof fn sort_stable_is_the_stable_order(
    s: Seq<VisibleEntity>,
    descending: bool,
    out: Seq<VisibleEntity>,
)
    ensures
        out == sort_stable(s, descending) <==> (is_ordered(out, descending) && forall|rank: int|
            of_rank(out, rank) == of_rank(s, rank)),
{
    let sorted = sort_stable(s, descending);
    lemma_sort_stable(s, descending);
    assert forall|rank: int| of_rank(sorted, rank) == of_rank(s, rank) by {
        sort_stable_keeps_encounter_order(s, descending, rank);
    }
    if is_ordered(out, descending) && (forall|rank: int| of_rank(out, rank) == of_rank(s, rank)) {
        lemma_ordered_is_unique(out, sorted, descending);
    }
}

/// Whether the entry with key `a` may stand before the one with key `b`.
pub fn keys_in_order(a: &OrderKey, b: &OrderKey, descending: bool) -> (r: bool)
    ensures
        r == in_order(*a, *b, descending),
{
    if descending {
        b.at_or_before(a)
    } else {
        a.at_or_before(b)
    }
}

/// Merges two ordered runs into one, entries of equal rank from `a` going
/// before those from `b`.
pub fn merge_entries(a: &Vec<VisibleEntity>, b: &Vec<VisibleEntity>, descending: bool) -> (out: Vec<
    VisibleEntity,
>)
    requires
        is_ordered(a@, descending),
        is_ordered(b@, descending),
    ensures
        is_ordered(out@, descending),
        forall|rank: int| of_rank(out@, rank) == of_rank(a@, rank) + of_rank(b@, rank),
{
    let mut out: Vec<VisibleEntity> = Vec::new();
    let mut i: usize = 0;
    let mut j: usize = 0;
    proof {
        reveal(Seq::filter);
        assert forall|rank: int|
            of_rank(out@, rank) == of_rank(a@.subrange(0, 0), rank) + of_rank(
                b@.subrange(0, 0),
                rank,
            ) by {
            assert(of_rank(out@, rank) =~= of_rank(a@.subrange(0, 0), rank) + of_rank(
                b@.subrange(0, 0),
                rank,
            ));
        }
    }
    while i < a.len() || j < b.len()
        invariant
            i <= a.len(),
            j <= b.len(),
            is_ordered(a@, descending),
            is_ordered(b@, descending),
            is_ordered(out@, descending),
            forall|k: int, m: int|
                0 <= k < out@.len() && i <= m < a@.len() ==> in_order(
                    #[trigger] out@[k].order,
                    #[trigger] a@[m].order,
                    descending,
                ),
            forall|k: int, m: int|
                0 <= k < out@.len() && j <= m < b@.len() ==> in_order(
                    #[trigger] out@[k].order,
                    #[trigger] b@[m].order,
                    descending,
                ),
            forall|k: int, m: int|
                0 <= k < j && i <= m < a@.len() ==> !in_order(
                    #[trigger] a@[m].order,
                    #[trigger] b@[k].order,
                    descending,
                ),
            forall|rank: int|
                of_rank(out@, rank) == of_rank(a@.subrange(0, i as int), rank) + of_rank(
                    b@.subrange(0, j as int),
                    rank,
                ),
        decreases a.len() - i + b.len() - j,
    {
        let from_a = if i == a.len() {
            false
        } else if j == b.len() {
            true
        } else {
            keys_in_order(&a[i].order, &b[j].order, descending)
        };
        let ghost before = out@;
        if from_a {
            let e = a[i];
            out.push(e);
            proof {
                let taken = a@.subrange(0, i as int);
                let other = b@.subrange(0, j as int);
                assert(a@.subrange(0, i as int + 1).drop_last() =~= taken);
                assert(out@.drop_last() =~= before);
                assert forall|k: int| 0 <= k < other.len() implies (#[trigger] other[k]).order.rank()
                    != e.order.rank() by {
                    assert(!in_order(a@[i as int].order, b@[k].order, descending));
                }
                lemma_of_rank_absent(other, e.order.rank());
                reveal(Seq::filter);
                assert forall|rank: int|
                    of_rank(out@, rank) == of_rank(a@.subrange(0, i as int + 1), rank) + of_rank(
                        other,
                        rank,
                    ) by {
                    assert(of_rank(before, rank) == of_rank(taken, rank) + of_rank(other, rank));
                    assert(of_rank(out@, rank) =~= of_rank(a@.subrange(0, i as int + 1), rank)
                        + of_rank(other, rank));
                }
                assert forall|k: int, m: int| 0 <= k < out@.len() && j <= m < b@.len() implies in_order(
                    #[trigger] out@[k].order,
                    #[trigger] b@[m].order,
                    descending,
                ) by {
                    if k == before.len() {
                        assert(in_order(b@[j as int].order, b@[m].order, descending) || m == j);
                    }
                }
                assert forall|k: int, m: int|
                    0 <= k < out@.len() && i + 1 <= m < a@.len() implies in_order(
                    #[trigger] out@[k].order,
                    #[trigger] a@[m].order,
                    descending,
                ) by {
                    if k == before.len() {
                        assert(in_order(a@[i as int].order, a@[m].order, descending));
                    }
                }
            }
            i += 1;
        } else {
            let e = b[j];
            out.push(e);
            proof {
                let taken = a@.subrange(0, i as int);
                let other = b@.subrange(0, j as int);
                assert(b@.subrange(0, j as int + 1).drop_last() =~= other);
                assert(out@.drop_last() =~= before);
                reveal(Seq::filter);
                assert forall|rank: int|
                    of_rank(out@, rank) == of_rank(taken, rank) + of_rank(
                        b@.subrange(0, j as int + 1),
                        rank,
                    ) by {
                    assert(of_rank(before, rank) == of_rank(taken, rank) + of_rank(other, rank));
                    assert(of_rank(out@, rank) =~= of_rank(taken, rank) + of_rank(
                        b@.subrange(0, j as int + 1),
                        rank,
                    ));
                }
                assert forall|k: int, m: int| 0 <= k < j + 1 && i <= m < a@.len() implies !in_order(
                    #[trigger] a@[m].order,
                    #[trigger] b@[k].order,
                    descending,
                ) by {
                    if k == j {
                        assert(in_order(a@[i as int].order, a@[m].order, descending) || m == i);
                    }
                }
                assert forall|k: int, m: int| 0 <= k < out@.len() && i <= m < a@.len() implies in_order(
                    #[trigger] out@[k].order,
                    #[trigger] a@[m].order,
                    descending,
                ) by {
                    if k == before.len() {
                        assert(!in_order(a@[m].order, b@[j as int].order, descending));
                    }
                }
                assert forall|k: int, m: int|
                    0 <= k < out@.len() && j + 1 <= m < b@.len() implies in_order(
                    #[trigger] out@[k].order,
                    #[trigger] b@[m].order,
                    descending,
                ) by {
                    if k == before.len() {
                        assert(in_order(b@[j as int].order, b@[m].order, descending));
                    }
                }
            }
            j += 1;
        }
    }
    proof {
        assert(a@.subrange(0, i as int) =~= a@);
        assert(b@.subrange(0, j as int) =~= b@);
    }
    out
}

/// Sorts the entries, nearest first or farthest first, entries of equal
/// rank staying as they were met.
pub fn sort_entries(entries: Vec<VisibleEntity>, descending: bool) -> (out: Vec<VisibleEntity>)
    ensures
        out@ == sort_stable(entries@, descending),
    decreases entries@.len(),
{
    let mut left = entries;
    let ghost whole = left@;
    if left.len() <= 1 {
        proof {
            reveal_with_fuel(sort_stable, 2);
            if whole.len() == 1 {
                assert(whole.drop_last() =~= Seq::empty());
                assert(seq![whole.last()] =~= whole);
            } else {
                assert(whole =~= Seq::empty());
            }
        }
        return left;
    }
    let mid = left.len() / 2;
    let right = left.split_off(mid);
    let ghost first = left@;
    let ghost second = right@;
    let left = sort_entries(left, descending);
    let right = sort_entries(right, descending);
    proof {
        lemma_sort_stable(first, descending);
        lemma_sort_stable(second, descending);
    }
    let out = merge_entries(&left, &right, descending);
    proof {
        assert(whole =~= first + second);
        assert forall|rank: int| of_rank(out@, rank) == of_rank(whole, rank) by {
            sort_stable_keeps_encounter_order(first, descending, rank);
            sort_stable_keeps_encounter_order(second, descending, rank);
            Seq::filter_distributes_over_add(
                first,
                second,
                |e: VisibleEntity| e.order.rank() == rank,
            );
        }
        sort_stable_is_the_stable_order(whole, descending, out@);
    }
    out
}

} // verus!
