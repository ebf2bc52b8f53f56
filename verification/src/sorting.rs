//! Stable sorting by a key.
use vstd::prelude::*;

verus! {

/// A sequence with one more item, put in behind all items whose key is not
/// greater.
pub open spec fn insert_by<T>(s: Seq<T>, x: T, key: spec_fn(T) -> int) -> Seq<T>
    decreases s.len(),
{
    if s.len() == 0 || key(s.last()) <= key(x) {
        s.push(x)
    } else {
        insert_by(s.drop_last(), x, key).push(s.last())
    }
}

/// A sequence sorted by a key. Items of the same key keep their order.
pub open spec fn sort_by<T>(s: Seq<T>, key: spec_fn(T) -> int) -> Seq<T>
    decreases s.len(),
{
    if s.len() == 0 {
        s
    } else {
        insert_by(sort_by(s.drop_last(), key), s.last(), key)
    }
}

/// The items of a sequence that have a given key.
pub open spec fn with_key<T>(s: Seq<T>, key: spec_fn(T) -> int, k: int) -> Seq<T> {
    s.filter(|x: T| key(x) == k)
}

proof fn lemma_with_key_push<T>(s: Seq<T>, x: T, key: spec_fn(T) -> int, k: int)
    ensures
        with_key(s.push(x), key, k) == (if key(x) == k {
            with_key(s, key, k).push(x)
        } else {
            with_key(s, key, k)
        }),
{
    reveal(Seq::filter);
    assert(s.push(x).drop_last() =~= s);
}

/// Whether the keys of a sequence never fall.
pub open spec fn is_sorted_by<T>(s: Seq<T>, key: spec_fn(T) -> int) -> bool {
    forall|i: int, j: int| 0 <= i <= j < s.len() ==> key(#[trigger] s[i]) <= key(#[trigger] s[j])
}

proof fn lemma_insert_sorted<T>(s: Seq<T>, x: T, key: spec_fn(T) -> int)
    requires
        is_sorted_by(s, key),
    ensures
        is_sorted_by(insert_by(s, x, key), key),
        insert_by(s, x, key).to_multiset() == s.to_multiset().insert(x),
        insert_by(s, x, key).len() == s.len() + 1,
        forall|k: int| #[trigger]
            with_key(insert_by(s, x, key), key, k) == with_key(s.push(x), key, k),
        s.len() > 0 ==> key(insert_by(s, x, key).last()) == (if key(s.last()) <= key(x) {
            key(x)
        } else {
            key(s.last())
        }),
    decreases s.len(),
{
    broadcast use vstd::seq_lib::group_to_multiset_ensures;

    let r = insert_by(s, x, key);
    if s.len() == 0 || key(s.last()) <= key(x) {
    } else {
        let d = s.drop_last();
        let y = s.last();
        lemma_insert_sorted(d, x, key);
        let e = insert_by(d, x, key);
        assert(s =~= d.push(y));
        assert(r.to_multiset() =~= s.to_multiset().insert(x));
        assert forall|i: int| 0 <= i < e.len() implies key(#[trigger] e[i]) <= key(y) by {
            assert(key(e[i]) <= key(e.last()));
            if d.len() > 0 {
                assert(d.last() == s[s.len() - 2]);
            } else {
                assert(e =~= seq![x]);
            }
        }
        assert forall|k: int| #[trigger] with_key(r, key, k) == with_key(s.push(x), key, k) by {
            lemma_with_key_push(e, y, key, k);
            lemma_with_key_push(s, x, key, k);
            lemma_with_key_push(d, y, key, k);
            lemma_with_key_push(d, x, key, k);
            assert(with_key(e, key, k) == with_key(d.push(x), key, k));
        }
    }
}

/// Sorting gives the same items, with keys that never fall, and keeps the order
/// of the items that have the same key.
pub proof fn law_sort<T>(s: Seq<T>, key: spec_fn(T) -> int)
    ensures
        is_sorted_by(sort_by(s, key), key),
        sort_by(s, key).to_multiset() == s.to_multiset(),
        sort_by(s, key).len() == s.len(),
        forall|k: int| #[trigger]
            with_key(sort_by(s, key), key, k) == with_key(s, key, k),
    decreases s.len(),
{
    broadcast use vstd::seq_lib::group_to_multiset_ensures;

    if s.len() > 0 {
        let d = s.drop_last();
        let e = sort_by(d, key);
        law_sort(d, key);
        lemma_insert_sorted(e, s.last(), key);
        assert(s =~= d.push(s.last()));
        assert forall|k: int| #[trigger] with_key(sort_by(s, key), key, k) == with_key(s, key, k) by {
            lemma_with_key_push(e, s.last(), key, k);
            lemma_with_key_push(d, s.last(), key, k);
            assert(with_key(insert_by(e, s.last(), key), key, k) == with_key(
                e.push(s.last()),
                key,
                k,
            ));
            assert(with_key(e, key, k) == with_key(d, key, k));
        }
    }
}

/// Sorting what items are turned into is turning the sorted items, where the keys
/// order them alike.
pub proof fn lemma_sort_map<T, U>(
    s: Seq<T>,
    key: spec_fn(T) -> int,
    f: spec_fn(T) -> U,
    key2: spec_fn(U) -> int,
)
    requires
        forall|x: T, y: T|
            s.contains(x) && s.contains(y) ==> (#[trigger] key(x) <= #[trigger] key(y) <==> key2(
                f(x),
            ) <= key2(f(y))),
    ensures
        sort_by(s.map_values(f), key2) == sort_by(s, key).map_values(f),
        forall|x: T| #[trigger] sort_by(s, key).contains(x) <==> s.contains(x),
    decreases s.len(),
{
    if s.len() > 0 {
        let d = s.drop_last();
        let e = sort_by(d, key);
        assert forall|x: T| #[trigger] d.contains(x) implies s.contains(x) by {
            let i = choose|i: int| 0 <= i < d.len() && d[i] == x;
            assert(s[i] == x);
        }
        lemma_sort_map(d, key, f, key2);
        assert(s.map_values(f).drop_last() =~= d.map_values(f));
        assert(s.contains(s[s.len() - 1]));
        assert forall|x: T| e.contains(x) implies (#[trigger] key(x) <= key(s.last()) <==> key2(f(x))
            <= key2(f(s.last()))) by {
            assert(s.contains(x));
        }
        lemma_insert_map(e, s.last(), key, f, key2);
        assert forall|x: T| #[trigger] sort_by(s, key).contains(x) <==> s.contains(x) by {
            if s.contains(x) {
                let i = choose|i: int| 0 <= i < s.len() && s[i] == x;
                if i < d.len() {
                    assert(d[i] == x);
                    assert(e.contains(x));
                }
            }
        }
    } else {
        assert(sort_by(s.map_values(f), key2) =~= sort_by(s, key).map_values(f));
    }
}

proof fn lemma_insert_map<T, U>(
    s: Seq<T>,
    x: T,
    key: spec_fn(T) -> int,
    f: spec_fn(T) -> U,
    key2: spec_fn(U) -> int,
)
    requires
        forall|y: T|
            s.contains(y) ==> (#[trigger] key(y) <= key(x) <==> key2(f(y)) <= key2(f(x))),
    ensures
        insert_by(s.map_values(f), f(x), key2) == insert_by(s, x, key).map_values(f),
        forall|y: T| #[trigger]
            insert_by(s, x, key).contains(y) <==> s.contains(y) || y == x,
    decreases s.len(),
{
    let r = insert_by(s, x, key);
    if s.len() == 0 || key(s.last()) <= key(x) {
        if s.len() > 0 {
            assert(s.contains(s[s.len() - 1]));
        }
        assert(insert_by(s.map_values(f), f(x), key2) =~= r.map_values(f));
        assert forall|y: T| #[trigger] r.contains(y) <==> s.contains(y) || y == x by {
            if s.contains(y) {
                let i = choose|i: int| 0 <= i < s.len() && s[i] == y;
                assert(r[i] == y);
            }
            assert(r[s.len() as int] == x);
        }
    } else {
        let d = s.drop_last();
        assert(s.contains(s[s.len() - 1]));
        assert forall|y: T| #[trigger] d.contains(y) implies s.contains(y) by {
            let i = choose|i: int| 0 <= i < d.len() && d[i] == y;
            assert(s[i] == y);
        }
        lemma_insert_map(d, x, key, f, key2);
        assert(s.map_values(f).drop_last() =~= d.map_values(f));
        let e = insert_by(d, x, key);
        assert(e.push(s.last()).map_values(f) =~= e.map_values(f).push(f(s.last())));
        assert forall|y: T| #[trigger] r.contains(y) <==> s.contains(y) || y == x by {
            if r.contains(y) {
                let i = choose|i: int| 0 <= i < r.len() && r[i] == y;
                if i < e.len() {
                    assert(e[i] == y);
                    assert(e.contains(y));
                }
            }
            if s.contains(y) {
                let i = choose|i: int| 0 <= i < s.len() && s[i] == y;
                if i < d.len() {
                    assert(d[i] == y);
                }
            }
            if s.contains(y) || y == x {
                if y == s.last() {
                    assert(r[e.len() as int] == y);
                } else {
                    assert(e.contains(y));
                    let i = choose|i: int| 0 <= i < e.len() && e[i] == y;
                    assert(r[i] == y);
                }
            }
        }
    }
}

/// What is sorted already stays as it is.
pub proof fn lemma_sort_sorted<T>(s: Seq<T>, key: spec_fn(T) -> int)
    requires
        is_sorted_by(s, key),
    ensures
        sort_by(s, key) == s,
    decreases s.len(),
{
    if s.len() > 0 {
        let d = s.drop_last();
        assert forall|i: int, j: int| 0 <= i <= j < d.len() implies key(#[trigger] d[i]) <= key(
            #[trigger] d[j],
        ) by {
            assert(d[i] == s[i] && d[j] == s[j]);
        }
        lemma_sort_sorted(d, key);
        if d.len() > 0 {
            assert(key(s[s.len() - 2]) <= key(s[s.len() - 1]));
        }
        assert(d.push(s.last()) =~= s);
    }
}

/// The number that an item is sorted by.
pub open spec fn number_of<T>() -> spec_fn((usize, T)) -> int {
    |p: (usize, T)| p.0 as int
}

/// A sequence with the items of two sorted ones, in order. Of items of the same key,
/// those of the left one come first.
spec fn merged_by<T>(l: Seq<T>, r: Seq<T>, key: spec_fn(T) -> int) -> Seq<T>
    decreases l.len() + r.len(),
{
    if l.len() == 0 {
        r
    } else if r.len() == 0 {
        l
    } else if key(l.last()) <= key(r.last()) {
        merged_by(l, r.drop_last(), key).push(r.last())
    } else {
        merged_by(l.drop_last(), r, key).push(l.last())
    }
}

proof fn lemma_with_key_concat<T>(l: Seq<T>, r: Seq<T>, key: spec_fn(T) -> int, k: int)
    ensures
        with_key(l + r, key, k) == with_key(l, key, k) + with_key(r, key, k),
{
    Seq::filter_distributes_over_add(l, r, |x: T| key(x) == k);
}

/// Where no item has a key, there is none with it.
proof fn lemma_with_key_none<T>(s: Seq<T>, key: spec_fn(T) -> int, k: int)
    requires
        forall|i: int| 0 <= i < s.len() ==> key(#[trigger] s[i]) != k,
    ensures
        with_key(s, key, k).len() == 0,
    decreases s.len(),
{
    reveal(Seq::filter);
    if s.len() > 0 {
        let d = s.drop_last();
        assert forall|i: int| 0 <= i < d.len() implies key(#[trigger] d[i]) != k by {
            assert(d[i] == s[i]);
        }
        lemma_with_key_none(d, key, k);
        assert(key(s[s.len() - 1]) != k);
    }
}

proof fn lemma_merged_sorted<T>(l: Seq<T>, r: Seq<T>, key: spec_fn(T) -> int)
    requires
        is_sorted_by(l, key),
        is_sorted_by(r, key),
    ensures
        is_sorted_by(merged_by(l, r, key), key),
        merged_by(l, r, key).len() == l.len() + r.len(),
        forall|k: int| #[trigger]
            with_key(merged_by(l, r, key), key, k) == with_key(l, key, k) + with_key(r, key, k),
        merged_by(l, r, key).len() > 0 ==> {
            let x = merged_by(l, r, key).last();
            ||| l.len() > 0 && x == l.last()
            ||| r.len() > 0 && x == r.last()
        },
    decreases l.len() + r.len(),
{
    let m = merged_by(l, r, key);
    if l.len() == 0 {
        assert forall|k: int| #[trigger] with_key(m, key, k) == with_key(l, key, k) + with_key(
            r,
            key,
            k,
        ) by {
            lemma_with_key_none(l, key, k);
            assert(with_key(l, key, k) + with_key(r, key, k) =~= with_key(r, key, k));
        }
    } else if r.len() == 0 {
        assert forall|k: int| #[trigger] with_key(m, key, k) == with_key(l, key, k) + with_key(
            r,
            key,
            k,
        ) by {
            lemma_with_key_none(r, key, k);
            assert(with_key(l, key, k) + with_key(r, key, k) =~= with_key(l, key, k));
        }
    } else if key(l.last()) <= key(r.last()) {
        let d = r.drop_last();
        let x = r.last();
        assert(d.push(x) =~= r);
        lemma_sorted_drop(r, key);
        lemma_merged_sorted(l, d, key);
        let e = merged_by(l, d, key);
        lemma_sorted_push(e, x, key);
        assert forall|k: int| #[trigger] with_key(m, key, k) == with_key(l, key, k) + with_key(
            r,
            key,
            k,
        ) by {
            lemma_with_key_push(e, x, key, k);
            lemma_with_key_push(d, x, key, k);
            assert(with_key(e, key, k) == with_key(l, key, k) + with_key(d, key, k));
            assert(with_key(m, key, k) =~= with_key(l, key, k) + with_key(r, key, k));
        }
    } else {
        let d = l.drop_last();
        let x = l.last();
        assert(d.push(x) =~= l);
        lemma_sorted_drop(l, key);
        lemma_merged_sorted(d, r, key);
        let e = merged_by(d, r, key);
        lemma_sorted_push(e, x, key);
        assert forall|k: int| #[trigger] with_key(m, key, k) == with_key(l, key, k) + with_key(
            r,
            key,
            k,
        ) by {
            lemma_with_key_push(e, x, key, k);
            lemma_with_key_push(d, x, key, k);
            assert(with_key(e, key, k) == with_key(d, key, k) + with_key(r, key, k));
            if k == key(x) {
                assert forall|i: int| 0 <= i < r.len() implies key(#[trigger] r[i]) != k by {
                    assert(key(r[i]) <= key(r[r.len() - 1]));
                }
                lemma_with_key_none(r, key, k);
            }
            assert(with_key(m, key, k) =~= with_key(l, key, k) + with_key(r, key, k));
        }
    }
}

proof fn lemma_sorted_drop<T>(s: Seq<T>, key: spec_fn(T) -> int)
    requires
        s.len() > 0,
        is_sorted_by(s, key),
    ensures
        is_sorted_by(s.drop_last(), key),
        s.len() > 1 ==> key(s.drop_last().last()) <= key(s.last()),
{
    let d = s.drop_last();
    assert forall|i: int, j: int| 0 <= i <= j < d.len() implies key(#[trigger] d[i]) <= key(
        #[trigger] d[j],
    ) by {
        assert(d[i] == s[i] && d[j] == s[j]);
    }
    if s.len() > 1 {
        assert(key(s[s.len() - 2]) <= key(s[s.len() - 1]));
    }
}

proof fn lemma_sorted_push<T>(s: Seq<T>, x: T, key: spec_fn(T) -> int)
    requires
        is_sorted_by(s, key),
        s.len() > 0 ==> key(s.last()) <= key(x),
    ensures
        is_sorted_by(s.push(x), key),
{
    let t = s.push(x);
    assert forall|i: int, j: int| 0 <= i <= j < t.len() implies key(#[trigger] t[i]) <= key(
        #[trigger] t[j],
    ) by {
        if i < s.len() {
            assert(key(s[i]) <= key(s[s.len() - 1]));
        }
        if j < s.len() {
            assert(key(s[i]) <= key(s[j]));
        }
    }
}

/// There is one way to sort: a sequence whose keys never fall is told by the items of
/// each key.
proof fn lemma_sorted_unique<T>(x: Seq<T>, y: Seq<T>, key: spec_fn(T) -> int)
    requires
        is_sorted_by(x, key),
        is_sorted_by(y, key),
        forall|k: int| #[trigger] with_key(x, key, k) == with_key(y, key, k),
    ensures
        x == y,
    decreases x.len(),
{
    if x.len() == 0 {
        if y.len() > 0 {
            lemma_last_with_key(y, key);
            lemma_with_key_none(x, key, key(y.last()));
            assert(with_key(x, key, key(y.last())) == with_key(y, key, key(y.last())));
        }
    } else {
        lemma_last_with_key(x, key);
        let a = x.last();
        assert(with_key(x, key, key(a)) == with_key(y, key, key(a)));
        if y.len() == 0 {
            lemma_with_key_none(y, key, key(a));
        } else {
            lemma_last_with_key(y, key);
            let b = y.last();
            assert(with_key(x, key, key(b)) == with_key(y, key, key(b)));
            if key(a) < key(b) {
                assert forall|i: int| 0 <= i < x.len() implies key(#[trigger] x[i]) != key(b) by {
                    assert(key(x[i]) <= key(x[x.len() - 1]));
                }
                lemma_with_key_none(x, key, key(b));
            } else if key(b) < key(a) {
                assert forall|i: int| 0 <= i < y.len() implies key(#[trigger] y[i]) != key(a) by {
                    assert(key(y[i]) <= key(y[y.len() - 1]));
                }
                lemma_with_key_none(y, key, key(a));
            }
            let p = x.drop_last();
            let q = y.drop_last();
            assert(p.push(a) =~= x);
            assert(q.push(b) =~= y);
            lemma_sorted_drop(x, key);
            lemma_sorted_drop(y, key);
            assert forall|k: int| #[trigger] with_key(p, key, k) == with_key(q, key, k) by {
                lemma_with_key_push(p, a, key, k);
                lemma_with_key_push(q, b, key, k);
                assert(with_key(x, key, k) == with_key(y, key, k));
                if k == key(a) {
                    assert(with_key(p, key, k) =~= with_key(x, key, k).drop_last());
                    assert(with_key(q, key, k) =~= with_key(y, key, k).drop_last());
                }
            }
            lemma_sorted_unique(p, q, key);
        }
    }
}

proof fn lemma_last_with_key<T>(s: Seq<T>, key: spec_fn(T) -> int)
    requires
        s.len() > 0,
    ensures
        with_key(s, key, key(s.last())).len() > 0,
        with_key(s, key, key(s.last())).last() == s.last(),
{
    assert(s.drop_last().push(s.last()) =~= s);
    lemma_with_key_push(s.drop_last(), s.last(), key, key(s.last()));
}

/// Sorting two halves and merging them is sorting the whole.
proof fn lemma_sort_halves<T>(l: Seq<T>, r: Seq<T>, key: spec_fn(T) -> int)
    ensures
        merged_by(sort_by(l, key), sort_by(r, key), key) == sort_by(l + r, key),
{
    let x = sort_by(l, key);
    let y = sort_by(r, key);
    let m = merged_by(x, y, key);
    let all = sort_by(l + r, key);
    law_sort(l, key);
    law_sort(r, key);
    law_sort(l + r, key);
    lemma_merged_sorted(x, y, key);
    assert forall|k: int| #[trigger] with_key(m, key, k) == with_key(all, key, k) by {
        lemma_with_key_concat(l, r, key, k);
        assert(with_key(x, key, k) == with_key(l, key, k));
        assert(with_key(y, key, k) == with_key(r, key, k));
        assert(with_key(all, key, k) == with_key(l + r, key, k));
    }
    lemma_sorted_unique(m, all, key);
}

/// Merges two sorted sequences, from their ends on.
fn merge_numbered<T>(left: Vec<(usize, T)>, right: Vec<(usize, T)>) -> (r: Vec<(usize, T)>)
    ensures
        r@ == merged_by(left@, right@, number_of::<T>()),
{
    let ghost key = number_of::<T>();
    let ghost all = merged_by(left@, right@, key);
    let mut left = left;
    let mut right = right;
    let mut back: Vec<(usize, T)> = Vec::new();
    while left.len() > 0 && right.len() > 0
        invariant
            key == number_of::<T>(),
            all == merged_by(left@, right@, key) + back@.reverse(),
        decreases left@.len() + right@.len(),
    {
        let take_right = left[left.len() - 1].0 <= right[right.len() - 1].0;
        let ghost before = back@;
        let ghost l = left@;
        let ghost r = right@;
        let next = if take_right {
            right.pop()
        } else {
            left.pop()
        };
        if let Some(x) = next {
            back.push(x);
            proof {
                assert(back@.reverse() =~= seq![x] + before.reverse());
                assert(merged_by(l, r, key) == merged_by(left@, right@, key).push(x));
                assert(all =~= merged_by(left@, right@, key) + back@.reverse());
            }
        }
    }
    let mut out = if left.len() > 0 {
        left
    } else {
        right
    };
    let ghost front = out@;
    assert(all == front + back@.reverse());
    while back.len() > 0
        invariant
            all == out@ + back@.reverse(),
        decreases back@.len(),
    {
        let ghost before = back@;
        let ghost start = out@;
        if let Some(x) = back.pop() {
            out.push(x);
            proof {
                assert(before.reverse() =~= seq![x] + back@.reverse());
                assert(all =~= out@ + back@.reverse());
            }
        }
    }
    assert(all =~= out@);
    out
}

/// Sorts numbered items by their numbers. Items of the same number keep their
/// order.
pub fn sort_numbered<T>(items: Vec<(usize, T)>) -> (r: Vec<(usize, T)>)
    ensures
        r@ == sort_by(items@, number_of::<T>()),
    decreases items@.len(),
{
    let n: usize = items.len();
    if n <= 1 {
        proof {
            lemma_sort_sorted(items@, number_of::<T>());
        }
        return items;
    }
    let ghost all = items@;
    let mut left = items;
    let right = left.split_off(n / 2);
    proof {
        assert(all =~= left@ + right@);
        lemma_sort_halves(left@, right@, number_of::<T>());
    }
    merge_numbered(sort_numbered(left), sort_numbered(right))
}

/// The items of a list that have a given number, in their order.
pub open spec fn with_number<T>(s: Seq<(usize, T)>, n: usize) -> Seq<(usize, T)> {
    s.filter(|p: (usize, T)| p.0 == n)
}

proof fn lemma_with_number<T>(s: Seq<(usize, T)>, n: usize)
    ensures
        with_number(s, n) == with_key(s, number_of::<T>(), n as int),
    decreases s.len(),
{
    reveal(Seq::filter);
    if s.len() > 0 {
        lemma_with_number(s.drop_last(), n);
    }
}

/// What sorting gives, in plain terms: the numbers never fall, and of each number the items
/// are those of the list, in their order there. No item comes or goes.
pub proof fn law_sorting_by_number<T>(s: Seq<(usize, T)>, n: usize)
    ensures
        sort_by(s, number_of::<T>()).len() == s.len(),
        forall|i: int, j: int|
            0 <= i <= j < s.len() ==> (#[trigger] sort_by(s, number_of::<T>())[i]).0 <= (
            #[trigger] sort_by(s, number_of::<T>())[j]).0,
        with_number(sort_by(s, number_of::<T>()), n) == with_number(s, n),
{
    let key = number_of::<T>();
    law_sort(s, key);
    let t = sort_by(s, key);
    assert forall|i: int, j: int| 0 <= i <= j < s.len() implies (#[trigger] t[i]).0 <= (
    #[trigger] t[j]).0 by {
        assert(key(t[i]) <= key(t[j]));
    }
    lemma_with_number(s, n);
    lemma_with_number(t, n);
    assert(with_key(t, key, n as int) == with_key(s, key, n as int));
}

} // verus!
