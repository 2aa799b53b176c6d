//! Putting ranked items in order without disturbing items of one rank.

use vstd::prelude::*;

verus! {

/// The items of rank `rank`, in the order in which they stand.
pub open spec fn of_rank<T>(items: Seq<(u64, T)>, rank: u64) -> Seq<(u64, T)> {
    items.filter(|item: (u64, T)| item.0 == rank)
}

/// Whether no item stands before one of lower rank.
pub open spec fn ascending<T>(items: Seq<(u64, T)>) -> bool {
    forall|i: int, j: int| 0 <= i < j < items.len() ==> items[i].0 <= items[j].0
}

/// Whether `sorted` holds the items of `items` by ascending rank, those of
/// one rank in the order in which they stand in `items`. There is one such
/// sequence for every `items`.
pub open spec fn stably_sorted<T>(sorted: Seq<(u64, T)>, items: Seq<(u64, T)>) -> bool {
    &&& ascending(sorted)
    &&& forall|rank: u64| #[trigger] of_rank(sorted, rank) == of_rank(items, rank)
}

/// Where no item has the rank, none is picked.
pub proof fn lemma_none_of_rank<T>(items: Seq<(u64, T)>, rank: u64)
    requires
        forall|i: int| 0 <= i < items.len() ==> (#[trigger] items[i]).0 != rank,
    ensures
        of_rank(items, rank) == Seq::<(u64, T)>::empty(),
    decreases items.len(),
{
    reveal(Seq::filter);
    if items.len() > 0 {
        let front = items.drop_last();
        assert forall|i: int| 0 <= i < front.len() implies (#[trigger] front[i]).0 != rank by {
            assert(front[i] == items[i]);
        }
        lemma_none_of_rank(front, rank);
        assert(items[items.len() - 1].0 != rank);
    }
}

/// Where items of a rank are picked, an item has the rank.
pub proof fn lemma_some_of_rank<T>(items: Seq<(u64, T)>, rank: u64) -> (i: int)
    requires
        of_rank(items, rank).len() > 0,
    ensures
        0 <= i < items.len(),
        items[i].0 == rank,
{
    if forall|i: int| 0 <= i < items.len() ==> (#[trigger] items[i]).0 != rank {
        lemma_none_of_rank(items, rank);
    }
    choose|i: int| 0 <= i < items.len() && (#[trigger] items[i]).0 == rank
}

/// What is picked when the last item is left out.
pub proof fn lemma_of_rank_last<T>(items: Seq<(u64, T)>, rank: u64)
    requires
        items.len() > 0,
    ensures
        of_rank(items, rank) == if items.last().0 == rank {
            of_rank(items.drop_last(), rank).push(items.last())
        } else {
            of_rank(items.drop_last(), rank)
        },
{
    reveal(Seq::filter);
}

/// Two ascending sequences that hold the same items under every rank are
/// the same sequence.
pub proof fn lemma_ascending_unique<T>(a: Seq<(u64, T)>, b: Seq<(u64, T)>)
    requires
        ascending(a),
        ascending(b),
        forall|rank: u64| #[trigger] of_rank(a, rank) == of_rank(b, rank),
    ensures
        a == b,
    decreases a.len(),
{
    if a.len() == 0 {
        if b.len() > 0 {
            lemma_of_rank_last(b, b.last().0);
            lemma_none_of_rank(a, b.last().0);
            assert(of_rank(a, b.last().0) == of_rank(b, b.last().0));
        }
        assert(a =~= b);
    } else {
        let x = a.last();
        lemma_of_rank_last(a, x.0);
        assert(of_rank(a, x.0) == of_rank(b, x.0));
        let at = lemma_some_of_rank(b, x.0);
        let y = b.last();
        lemma_of_rank_last(b, y.0);
        assert(of_rank(a, y.0) == of_rank(b, y.0));
        let from = lemma_some_of_rank(a, y.0);
        assert(x.0 == y.0) by {
            if at < b.len() - 1 {
                assert(b[at].0 <= b[b.len() - 1].0);
            }
            if from < a.len() - 1 {
                assert(a[from].0 <= a[a.len() - 1].0);
            }
        }
        let front_a = a.drop_last();
        let front_b = b.drop_last();
        assert(of_rank(front_a, x.0).push(x) == of_rank(front_b, x.0).push(y));
        assert(x == y) by {
            assert(of_rank(front_a, x.0).push(x).last() == x);
            assert(of_rank(front_b, x.0).push(y).last() == y);
        }
        assert forall|rank: u64| #[trigger] of_rank(front_a, rank) == of_rank(front_b, rank) by {
            lemma_of_rank_last(a, rank);
            lemma_of_rank_last(b, rank);
            assert(of_rank(a, rank) == of_rank(b, rank));
            if rank == x.0 {
                assert(of_rank(front_a, rank) =~= of_rank(front_a, rank).push(x).drop_last());
                assert(of_rank(front_b, rank) =~= of_rank(front_b, rank).push(y).drop_last());
            }
        }
        assert(ascending(front_a)) by {
            assert forall|i: int, j: int| 0 <= i < j < front_a.len() implies front_a[i].0
                <= front_a[j].0 by {
                assert(a[i].0 <= a[j].0);
            }
        }
        assert(ascending(front_b)) by {
            assert forall|i: int, j: int| 0 <= i < j < front_b.len() implies front_b[i].0
                <= front_b[j].0 by {
                assert(b[i].0 <= b[j].0);
            }
        }
        lemma_ascending_unique(front_a, front_b);
        assert(a =~= front_a.push(x));
        assert(b =~= front_b.push(y));
    }
}

/// There is one stable order of the items: two sequences that both hold
/// the items stably sorted are the same.
pub proof fn lemma_stable_order_unique<T>(
    first: Seq<(u64, T)>,
    second: Seq<(u64, T)>,
    items: Seq<(u64, T)>,
)
    requires
        stably_sorted(first, items),
        stably_sorted(second, items),
    ensures
        first == second,
{
    assert forall|rank: u64| #[trigger] of_rank(first, rank) == of_rank(second, rank) by {
        assert(of_rank(first, rank) == of_rank(items, rank));
        assert(of_rank(second, rank) == of_rank(items, rank));
    }
    lemma_ascending_unique(first, second);
}

/// The items with `change` applied to what each holds beside its rank.
pub open spec fn mapped<T, U>(items: Seq<(u64, T)>, change: spec_fn(T) -> U) -> Seq<(u64, U)> {
    items.map_values(|item: (u64, T)| (item.0, change(item.1)))
}

/// Picking by rank and changing what the items hold can be done in either
/// order.
pub proof fn lemma_of_rank_mapped<T, U>(items: Seq<(u64, T)>, change: spec_fn(T) -> U, rank: u64)
    ensures
        of_rank(mapped(items, change), rank) == mapped(of_rank(items, rank), change),
    decreases items.len(),
{
    reveal(Seq::filter);
    if items.len() == 0 {
        assert(mapped(items, change) =~= Seq::<(u64, U)>::empty());
        assert(mapped(of_rank(items, rank), change) =~= Seq::<(u64, U)>::empty());
    } else {
        let front = items.drop_last();
        lemma_of_rank_mapped(front, change, rank);
        assert(mapped(items, change).drop_last() =~= mapped(front, change));
        assert(mapped(items, change).last() == (items.last().0, change(items.last().1)));
        if items.last().0 == rank {
            assert(mapped(of_rank(front, rank).push(items.last()), change) =~= mapped(
                of_rank(front, rank),
                change,
            ).push((items.last().0, change(items.last().1))));
        }
    }
}

/// Items that are stably sorted stay so when what they hold is changed.
pub proof fn lemma_stably_sorted_mapped<T, U>(
    sorted: Seq<(u64, T)>,
    items: Seq<(u64, T)>,
    change: spec_fn(T) -> U,
)
    requires
        stably_sorted(sorted, items),
    ensures
        stably_sorted(mapped(sorted, change), mapped(items, change)),
{
    assert forall|rank: u64| #[trigger]
        of_rank(mapped(sorted, change), rank) == of_rank(mapped(items, change), rank) by {
        lemma_of_rank_mapped(sorted, change, rank);
        lemma_of_rank_mapped(items, change, rank);
        assert(of_rank(sorted, rank) == of_rank(items, rank));
    }
}

/// The items in the opposite order.
fn turned<T>(items: Vec<T>) -> (back: Vec<T>)
    ensures
        back@.len() == items@.len(),
        forall|i: int| 0 <= i < back@.len() ==> back@[i] == items@[items@.len() - 1 - i],
{
    let ghost all = items@;
    let mut items = items;
    let mut back: Vec<T> = Vec::new();
    while items.len() > 0
        invariant
            items@.len() + back@.len() == all.len(),
            forall|i: int| 0 <= i < items@.len() ==> items@[i] == all[i],
            forall|i: int| 0 <= i < back@.len() ==> back@[i] == all[all.len() - 1 - i],
        decreases items@.len(),
    {
        let item = items.pop().unwrap();
        back.push(item);
    }
    back
}

/// Two ascending runs as one: by ascending rank, and under one rank the
/// items of the first run before those of the second.
fn merged<T>(first: Vec<(u64, T)>, second: Vec<(u64, T)>) -> (both: Vec<(u64, T)>)
    requires
        ascending(first@),
        ascending(second@),
    ensures
        ascending(both@),
        both@.len() == first@.len() + second@.len(),
        forall|rank: u64| #[trigger]
            of_rank(both@, rank) == of_rank(first@, rank) + of_rank(second@, rank),
        forall|i: int|
            0 <= i < both@.len() ==> first@.contains(#[trigger] both@[i]) || second@.contains(
                both@[i],
            ),
{
    let ghost a = first@;
    let ghost b = second@;
    let mut left = turned(first);
    let mut right = turned(second);
    let mut both: Vec<(u64, T)> = Vec::new();
    proof {
        assert(a.take(0) =~= Seq::<(u64, T)>::empty());
        assert(b.take(0) =~= Seq::<(u64, T)>::empty());
        assert forall|rank: u64| #[trigger]
            of_rank(both@, rank) == of_rank(a.take(0), rank) + of_rank(b.take(0), rank) by {
            lemma_none_of_rank(Seq::<(u64, T)>::empty(), rank);
            assert(both@ =~= Seq::<(u64, T)>::empty());
        }
    }
    while left.len() > 0 || right.len() > 0
        invariant
            ascending(a),
            ascending(b),
            left@.len() <= a.len(),
            right@.len() <= b.len(),
            forall|i: int| 0 <= i < left@.len() ==> left@[i] == a[a.len() - 1 - i],
            forall|i: int| 0 <= i < right@.len() ==> right@[i] == b[b.len() - 1 - i],
            both@.len() == (a.len() - left@.len()) + (b.len() - right@.len()),
            ascending(both@),
            // What is merged does not rank above what is left.
            forall|i: int, j: int|
                0 <= i < both@.len() && a.len() - left@.len() <= j < a.len() ==> both@[i].0
                    <= a[j].0,
            forall|i: int, j: int|
                0 <= i < both@.len() && b.len() - right@.len() <= j < b.len() ==> both@[i].0
                    <= b[j].0,
            // What was taken of the second run ranks below what is left of the first.
            forall|i: int, j: int|
                0 <= i < b.len() - right@.len() && a.len() - left@.len() <= j < a.len() ==> b[i].0
                    < a[j].0,
            forall|rank: u64| #[trigger]
                of_rank(both@, rank) == of_rank(a.take(a.len() - left@.len()), rank) + of_rank(
                    b.take(b.len() - right@.len()),
                    rank,
                ),
            forall|i: int|
                0 <= i < both@.len() ==> a.contains(#[trigger] both@[i]) || b.contains(both@[i]),
        decreases left@.len() + right@.len(),
    {
        let ghost i = a.len() - left@.len();
        let ghost j = b.len() - right@.len();
        let ghost so_far = both@;
        let from_first: bool = if right.len() == 0 {
            true
        } else if left.len() == 0 {
            false
        } else {
            left[left.len() - 1].0 <= right[right.len() - 1].0
        };
        if from_first {
            let item = left.pop().unwrap();
            assert(item == a[i]);
            both.push(item);
            proof {
                assert(a.take(i + 1) =~= a.take(i).push(item));
                assert forall|rank: u64| #[trigger]
                    of_rank(both@, rank) == of_rank(a.take(i + 1), rank) + of_rank(
                        b.take(j),
                        rank,
                    ) by {
                    lemma_of_rank_last(both@, rank);
                    lemma_of_rank_last(a.take(i + 1), rank);
                    assert(both@.drop_last() =~= so_far);
                    assert(a.take(i + 1).drop_last() =~= a.take(i));
                    assert(of_rank(so_far, rank) == of_rank(a.take(i), rank) + of_rank(
                        b.take(j),
                        rank,
                    ));
                    if item.0 == rank {
                        assert forall|q: int| 0 <= q < b.take(j).len() implies (#[trigger] b.take(
                            j,
                        )[q]).0 != rank by {
                            assert(b[q].0 < a[i].0);
                        }
                        lemma_none_of_rank(b.take(j), rank);
                        assert(of_rank(both@, rank) =~= of_rank(a.take(i + 1), rank) + of_rank(
                            b.take(j),
                            rank,
                        ));
                    }
                }
                assert forall|p: int, q: int| 0 <= p < q < both@.len() implies both@[p].0
                    <= both@[q].0 by {
                    if q == so_far.len() {
                        assert(so_far[p].0 <= a[i].0);
                    }
                }
                assert forall|p: int, q: int|
                    0 <= p < both@.len() && i + 1 <= q < a.len() implies both@[p].0 <= a[q].0 by {
                    if p == so_far.len() {
                        assert(a[i].0 <= a[q].0);
                    }
                }
                assert forall|p: int, q: int|
                    0 <= p < both@.len() && j <= q < b.len() implies both@[p].0 <= b[q].0 by {
                    if p == so_far.len() {
                        if right@.len() > 0 {
                            assert(right@[right@.len() - 1] == b[j]);
                            if j < q {
                                assert(b[j].0 <= b[q].0);
                            }
                        }
                    }
                }
                assert forall|p: int| 0 <= p < both@.len() implies a.contains(#[trigger] both@[p])
                    || b.contains(both@[p]) by {
                    if p == so_far.len() {
                        assert(a[i] == both@[p]);
                    } else {
                        assert(both@[p] == so_far[p]);
                    }
                }
            }
        } else {
            let item = right.pop().unwrap();
            assert(item == b[j]);
            both.push(item);
            proof {
                assert(b.take(j + 1) =~= b.take(j).push(item));
                assert forall|rank: u64| #[trigger]
                    of_rank(both@, rank) == of_rank(a.take(i), rank) + of_rank(
                        b.take(j + 1),
                        rank,
                    ) by {
                    lemma_of_rank_last(both@, rank);
                    lemma_of_rank_last(b.take(j + 1), rank);
                    assert(both@.drop_last() =~= so_far);
                    assert(b.take(j + 1).drop_last() =~= b.take(j));
                    assert(of_rank(so_far, rank) == of_rank(a.take(i), rank) + of_rank(
                        b.take(j),
                        rank,
                    ));
                    if item.0 == rank {
                        assert(of_rank(both@, rank) =~= of_rank(a.take(i), rank) + of_rank(
                            b.take(j + 1),
                            rank,
                        ));
                    }
                }
                assert forall|p: int, q: int| 0 <= p < q < both@.len() implies both@[p].0
                    <= both@[q].0 by {
                    if q == so_far.len() {
                        assert(so_far[p].0 <= b[j].0);
                    }
                }
                assert forall|p: int, q: int|
                    0 <= p < both@.len() && j + 1 <= q < b.len() implies both@[p].0 <= b[q].0 by {
                    if p == so_far.len() {
                        assert(b[j].0 <= b[q].0);
                    }
                }
                assert forall|p: int, q: int|
                    0 <= p < j + 1 && i <= q < a.len() implies b[p].0 < a[q].0 by {
                    if p == j {
                        assert(left@.len() > 0);
                        assert(left@[left@.len() - 1] == a[i]);
                        if i < q {
                            assert(a[i].0 <= a[q].0);
                        }
                    }
                }
                assert forall|p: int, q: int|
                    0 <= p < both@.len() && i <= q < a.len() implies both@[p].0 <= a[q].0 by {
                    if p == so_far.len() {
                        assert(b[j].0 < a[q].0);
                    }
                }
                assert forall|p: int| 0 <= p < both@.len() implies a.contains(#[trigger] both@[p])
                    || b.contains(both@[p]) by {
                    if p == so_far.len() {
                        assert(b[j] == both@[p]);
                    } else {
                        assert(both@[p] == so_far[p]);
                    }
                }
            }
        }
    }
    assert(a.take(a.len() as int) =~= a);
    assert(b.take(b.len() as int) =~= b);
    both
}

/// The items by ascending rank, those of one rank in the order in which
/// they came.
pub fn stable_sort<T>(items: Vec<(u64, T)>) -> (sorted: Vec<(u64, T)>)
    ensures
        stably_sorted(sorted@, items@),
        sorted@.len() == items@.len(),
        forall|i: int| 0 <= i < sorted@.len() ==> items@.contains(#[trigger] sorted@[i]),
    decreases items@.len(),
{
    let n: usize = items.len();
    if n <= 1 {
        return items;
    }
    let ghost all = items@;
    let mut first = items;
    let second = first.split_off(n / 2);
    let ghost front = first@;
    let ghost back = second@;
    assert(all =~= front + back);
    let first = stable_sort(first);
    let second = stable_sort(second);
    let ghost first_sorted = first@;
    let ghost second_sorted = second@;
    let sorted = merged(first, second);
    proof {
        assert forall|rank: u64| #[trigger] of_rank(sorted@, rank) == of_rank(all, rank) by {
            assert(of_rank(first_sorted, rank) == of_rank(front, rank));
            assert(of_rank(second_sorted, rank) == of_rank(back, rank));
            Seq::filter_distributes_over_add(front, back, |item: (u64, T)| item.0 == rank);
        }
        assert forall|i: int| 0 <= i < sorted@.len() implies all.contains(
            #[trigger] sorted@[i],
        ) by {
            let item = sorted@[i];
            if first_sorted.contains(item) {
                let p = choose|p: int| 0 <= p < first_sorted.len() && first_sorted[p] == item;
                assert(front.contains(first_sorted[p]));
                let q = choose|q: int| 0 <= q < front.len() && front[q] == item;
                assert(all[q] == item);
            } else {
                let p = choose|p: int| 0 <= p < second_sorted.len() && second_sorted[p] == item;
                assert(back.contains(second_sorted[p]));
                let q = choose|q: int| 0 <= q < back.len() && back[q] == item;
                assert(all[front.len() + q] == item);
            }
        }
    }
    sorted
}

/// What the items hold beside their ranks, in the same order.
pub fn unranked<T>(items: Vec<(u64, T)>) -> (held: Vec<T>)
    ensures
        held@ == items@.map_values(|item: (u64, T)| item.1),
{
    let ghost all = items@;
    let n: usize = items.len();
    let mut items = items;
    let mut turned: Vec<T> = Vec::new();
    while items.len() > 0
        invariant
            all.len() == n,
            items@.len() + turned@.len() == n,
            forall|i: int| 0 <= i < items@.len() ==> items@[i] == all[i],
            forall|i: int| 0 <= i < turned@.len() ==> turned@[i] == all[n - 1 - i].1,
        decreases items@.len(),
    {
        let item = items.pop().unwrap();
        turned.push(item.1);
    }
    let mut held: Vec<T> = Vec::new();
    while turned.len() > 0
        invariant
            all.len() == n,
            held@.len() + turned@.len() == n,
            forall|i: int| 0 <= i < turned@.len() ==> turned@[i] == all[n - 1 - i].1,
            forall|i: int| 0 <= i < held@.len() ==> held@[i] == all[i].1,
        decreases turned@.len(),
    {
        let item = turned.pop().unwrap();
        held.push(item);
    }
    assert(held@ =~= all.map_values(|item: (u64, T)| item.1));
    held
}

} // verus!
