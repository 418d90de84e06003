//! The order in which items stand once they are sorted by a key, equal keys
//! keeping the places they had.
use vstd::prelude::*;

verus! {

/// The key `x` is less than the key `y`: by the first part, and by the second
/// where the first parts are equal.
pub open spec fn key_below(x: (int, int), y: (int, int)) -> bool {
    x.0 < y.0 || (x.0 == y.0 && x.1 < y.1)
}

/// Item `a` comes before item `b`: by its key, and by its place where the
/// keys are equal.
pub open spec fn precedes(keys: Seq<(int, int)>, a: int, b: int) -> bool {
    key_below(keys[a], keys[b]) || (keys[a] == keys[b] && a < b)
}

/// `order` lists the items `low..high`, each once, in the order of
/// `precedes`.
pub open spec fn orders(order: Seq<int>, keys: Seq<(int, int)>, low: int, high: int) -> bool {
    &&& order.len() == high - low
    &&& forall|i: int| 0 <= i < order.len() ==> low <= #[trigger] order[i] < high
    &&& forall|i: int, j: int|
        0 <= i < j < order.len() ==> precedes(keys, #[trigger] order[i], #[trigger] order[j])
    &&& forall|k: int| low <= k < high ==> #[trigger] order.contains(k)
}

/// The places of all items, in sorted order.
pub open spec fn stable_order(keys: Seq<(int, int)>) -> Seq<int> {
    choose|order: Seq<int>| orders(order, keys, 0, keys.len() as int)
}

/// The items of `s`, taken in the order of `order`.
pub open spec fn arranged<T>(s: Seq<T>, order: Seq<int>) -> Seq<T> {
    Seq::new(order.len(), |i: int| s[order[i]])
}

/// There is one way to order the items.
pub proof fn lemma_order_unique(one: Seq<int>, other: Seq<int>, keys: Seq<(int, int)>, low: int, high: int)
    requires
        orders(one, keys, low, high),
        orders(other, keys, low, high),
    ensures
        one == other,
    decreases one.len(),
{
    assert forall|i: int| 0 <= i < one.len() implies one[i] == other[i] by {
        lemma_same_at(one, other, keys, low, high, i);
    }
    assert(one =~= other);
}

proof fn lemma_same_at(
    one: Seq<int>,
    other: Seq<int>,
    keys: Seq<(int, int)>,
    low: int,
    high: int,
    i: int,
)
    requires
        orders(one, keys, low, high),
        orders(other, keys, low, high),
        0 <= i < one.len(),
    ensures
        one[i] == other[i],
    decreases i,
{
    assert forall|j: int| 0 <= j < i implies one[j] == other[j] by {
        lemma_same_at(one, other, keys, low, high, j);
    }
    let a = one[i];
    let b = other[i];
    assert(other.contains(a));
    let p = choose|p: int| 0 <= p < other.len() && other[p] == a;
    assert(one.contains(b));
    let q = choose|q: int| 0 <= q < one.len() && one[q] == b;
    if p < i {
        assert(one[p] == a);
        assert(precedes(keys, one[p], one[i]));
    }
    if q < i {
        assert(other[q] == b);
        assert(precedes(keys, other[q], other[i]));
    }
    if p > i && q > i {
        assert(precedes(keys, other[i], other[p]));
        assert(precedes(keys, one[i], one[q]));
    }
}

/// An item finds its place in the order of those before it.
proof fn lemma_order_inserted(order: Seq<int>, keys: Seq<(int, int)>, n: int, p: int)
    requires
        0 <= n < keys.len(),
        orders(order, keys, 0, n),
        0 <= p <= n,
        forall|i: int| 0 <= i < p ==> !key_below(keys[n], keys[#[trigger] order[i]]),
        forall|i: int| p <= i < n ==> key_below(keys[n], keys[#[trigger] order[i]]),
    ensures
        orders(order.insert(p, n), keys, 0, n + 1),
{
    let longer = order.insert(p, n);
    assert forall|i: int| 0 <= i < longer.len() implies 0 <= #[trigger] longer[i] < n + 1 by {
        if i < p {
            assert(longer[i] == order[i]);
        } else if i > p {
            assert(longer[i] == order[i - 1]);
        }
    }
    assert forall|i: int, j: int| 0 <= i < j < longer.len() implies precedes(
        keys,
        #[trigger] longer[i],
        #[trigger] longer[j],
    ) by {
        if i < p {
            assert(longer[i] == order[i]);
        } else if i > p {
            assert(longer[i] == order[i - 1]);
        }
        if j < p {
            assert(longer[j] == order[j]);
        } else if j > p {
            assert(longer[j] == order[j - 1]);
        }
    }
    assert forall|k: int| 0 <= k < n + 1 implies #[trigger] longer.contains(k) by {
        if k == n {
            assert(longer[p] == n);
        } else {
            assert(order.contains(k));
            let i = choose|i: int| 0 <= i < order.len() && order[i] == k;
            if i < p {
                assert(longer[i] == k);
            } else {
                assert(longer[i + 1] == k);
            }
        }
    }
}

/// Where the next item belongs in the order of those before it.
proof fn lemma_insertion_point(order: Seq<int>, keys: Seq<(int, int)>, n: int, from: int) -> (p: int)
    requires
        0 <= n < keys.len(),
        orders(order, keys, 0, n),
        0 <= from <= n,
        forall|i: int| 0 <= i < from ==> !key_below(keys[n], keys[#[trigger] order[i]]),
    ensures
        from <= p <= n,
        forall|i: int| 0 <= i < p ==> !key_below(keys[n], keys[#[trigger] order[i]]),
        forall|i: int| p <= i < n ==> key_below(keys[n], keys[#[trigger] order[i]]),
    decreases n - from,
{
    if from == n {
        from
    } else if key_below(keys[n], keys[order[from]]) {
        assert forall|i: int| from <= i < n implies key_below(
            keys[n],
            keys[#[trigger] order[i]],
        ) by {
            if i > from {
                assert(precedes(keys, order[from], order[i]));
            }
        }
        from
    } else {
        lemma_insertion_point(order, keys, n, from + 1)
    }
}

proof fn lemma_order_exists_below(keys: Seq<(int, int)>, n: int) -> (order: Seq<int>)
    requires
        0 <= n <= keys.len(),
    ensures
        orders(order, keys, 0, n),
    decreases n,
{
    if n == 0 {
        Seq::empty()
    } else {
        let shorter = lemma_order_exists_below(keys, n - 1);
        let p = lemma_insertion_point(shorter, keys, n - 1, 0);
        lemma_order_inserted(shorter, keys, n - 1, p);
        shorter.insert(p, n - 1)
    }
}

/// There is a way to order the items, so that `stable_order` is it.
pub proof fn lemma_order_exists(keys: Seq<(int, int)>)
    ensures
        orders(stable_order(keys), keys, 0, keys.len() as int),
{
    let order = lemma_order_exists_below(keys, keys.len() as int);
}

/// Merges the orders of two neighbouring ranges.
fn merge(keys: &Vec<(u64, i64)>, left: Vec<usize>, right: Vec<usize>, Ghost(low): Ghost<int>, Ghost(
    middle,
): Ghost<int>, Ghost(high): Ghost<int>) -> (merged: Vec<usize>)
    requires
        0 <= low <= middle <= high <= keys@.len(),
        orders(places(left@), numbers(keys@), low, middle),
        orders(places(right@), numbers(keys@), middle, high),
    ensures
        orders(places(merged@), numbers(keys@), low, high),
{
    let ghost ks = numbers(keys@);
    let mut merged: Vec<usize> = Vec::with_capacity(0);
    let mut i: usize = 0;
    let mut j: usize = 0;
    while i < left.len() || j < right.len()
        invariant
            0 <= low <= middle <= high <= keys@.len(),
            ks == numbers(keys@),
            orders(places(left@), ks, low, middle),
            orders(places(right@), ks, middle, high),
            i <= left@.len(),
            j <= right@.len(),
            merged@.len() == i + j,
            forall|a: int| 0 <= a < merged@.len() ==> low <= #[trigger] merged@[a] < high,
            forall|a: int, b: int|
                0 <= a < b < merged@.len() ==> precedes(
                    ks,
                    #[trigger] merged@[a] as int,
                    #[trigger] merged@[b] as int,
                ),
            forall|a: int, b: int|
                0 <= a < merged@.len() && i <= b < left@.len() ==> precedes(
                    ks,
                    #[trigger] merged@[a] as int,
                    #[trigger] left@[b] as int,
                ),
            forall|a: int, b: int|
                0 <= a < merged@.len() && j <= b < right@.len() ==> precedes(
                    ks,
                    #[trigger] merged@[a] as int,
                    #[trigger] right@[b] as int,
                ),
            forall|a: int| 0 <= a < i ==> merged@.contains(#[trigger] left@[a]),
            forall|a: int| 0 <= a < j ==> merged@.contains(#[trigger] right@[a]),
        decreases left@.len() + right@.len() - i - j,
    {
        let ghost before = merged@;
        proof {
            assert(forall|a: int| 0 <= a < left@.len() ==> places(left@)[a] == left@[a]);
            assert(forall|a: int| 0 <= a < right@.len() ==> places(right@)[a] == right@[a]);
            assert forall|a: int, b: int| 0 <= a < b < left@.len() implies precedes(
                ks,
                #[trigger] left@[a] as int,
                #[trigger] left@[b] as int,
            ) by {
                assert(precedes(ks, places(left@)[a], places(left@)[b]));
            }
            assert forall|a: int, b: int| 0 <= a < b < right@.len() implies precedes(
                ks,
                #[trigger] right@[a] as int,
                #[trigger] right@[b] as int,
            ) by {
                assert(precedes(ks, places(right@)[a], places(right@)[b]));
            }
            assert forall|a: int| 0 <= a < left@.len() implies low <= #[trigger] left@[a]
                < middle by {
                assert(low <= places(left@)[a] < middle);
            }
            assert forall|a: int| 0 <= a < right@.len() implies middle <= #[trigger] right@[a]
                < high by {
                assert(middle <= places(right@)[a] < high);
            }
        }
        let take_left: bool = if j == right.len() {
            true
        } else if i == left.len() {
            false
        } else {
            let (a0, a1) = keys[left[i]];
            let (b0, b1) = keys[right[j]];
            a0 < b0 || (a0 == b0 && a1 <= b1)
        };
        if take_left {
            merged.push(left[i]);
            i = i + 1;
        } else {
            merged.push(right[j]);
            j = j + 1;
        }
        proof {
            let last = merged@[before.len() as int];
            assert(merged@ == before.push(last));
            assert forall|a: int| 0 <= a < i implies merged@.contains(#[trigger] left@[a]) by {
                lemma_contains_push(before, last, left@[a]);
            }
            assert forall|a: int| 0 <= a < j implies merged@.contains(#[trigger] right@[a]) by {
                lemma_contains_push(before, last, right@[a]);
            }
        }
    }
    proof {
        let all = places(merged@);
        assert forall|k: int| low <= k < high implies #[trigger] all.contains(k) by {
            if k < middle {
                assert(places(left@).contains(k));
                let a = choose|a: int| 0 <= a < left@.len() && places(left@)[a] == k;
                assert(merged@.contains(left@[a]));
                let b = choose|b: int| 0 <= b < merged@.len() && merged@[b] == left@[a];
                assert(all[b] == k);
            } else {
                assert(places(right@).contains(k));
                let a = choose|a: int| 0 <= a < right@.len() && places(right@)[a] == k;
                assert(merged@.contains(right@[a]));
                let b = choose|b: int| 0 <= b < merged@.len() && merged@[b] == right@[a];
                assert(all[b] == k);
            }
        }
    }
    merged
}

proof fn lemma_contains_push(s: Seq<usize>, last: usize, x: usize)
    requires
        s.contains(x) || x == last,
    ensures
        s.push(last).contains(x),
{
    if s.contains(x) {
        let k = choose|k: int| 0 <= k < s.len() && s[k] == x;
        assert(s.push(last)[k] == x);
    } else {
        assert(s.push(last)[s.len() as int] == x);
    }
}

/// Machine keys, read as integers.
pub open spec fn numbers(keys: Seq<(u64, i64)>) -> Seq<(int, int)> {
    keys.map_values(|k: (u64, i64)| (k.0 as int, k.1 as int))
}

/// Machine indices, read as integers.
pub open spec fn places(order: Seq<usize>) -> Seq<int> {
    order.map_values(|k: usize| k as int)
}

fn sort_range(keys: &Vec<(u64, i64)>, low: usize, high: usize) -> (order: Vec<usize>)
    requires
        low <= high <= keys@.len(),
    ensures
        orders(places(order@), numbers(keys@), low as int, high as int),
    decreases high - low,
{
    if high - low < 2 {
        let mut order: Vec<usize> = Vec::new();
        if low < high {
            order.push(low);
            proof {
                assert(places(order@)[0] == low);
            }
        }
        order
    } else {
        let middle: usize = low + (high - low) / 2;
        let left: Vec<usize> = sort_range(keys, low, middle);
        let right: Vec<usize> = sort_range(keys, middle, high);
        merge(keys, left, right, Ghost(low as int), Ghost(middle as int), Ghost(high as int))
    }
}

/// The order of the items once sorted by `keys`.
pub fn sorted_order(keys: &Vec<(u64, i64)>) -> (order: Vec<usize>)
    ensures
        places(order@) == stable_order(numbers(keys@)),
        orders(places(order@), numbers(keys@), 0, keys@.len() as int),
        order@.len() == keys@.len(),
        forall|i: int| 0 <= i < order@.len() ==> #[trigger] order@[i] < keys@.len(),
{
    let order: Vec<usize> = sort_range(keys, 0, keys.len());
    proof {
        lemma_order_unique(
            places(order@),
            stable_order(numbers(keys@)),
            numbers(keys@),
            0,
            keys@.len() as int,
        );
        assert forall|i: int| 0 <= i < order@.len() implies #[trigger] order@[i] < keys@.len() by {
            assert(places(order@)[i] == order@[i]);
        }
    }
    order
}

} // verus!
