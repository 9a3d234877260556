//! Lexicographic order on keys, and lists kept in that order.

use vstd::prelude::*;

verus! {

/// Whether key `a` comes before key `b` in lexicographic order: at the first
/// place where they differ `a` has the smaller number, or `a` ends there.
pub open spec fn key_less(a: Seq<u64>, b: Seq<u64>) -> bool
    decreases b.len(),
{
    if b.len() == 0 {
        false
    } else if a.len() == 0 {
        true
    } else if a[0] != b[0] {
        a[0] < b[0]
    } else {
        key_less(a.skip(1), b.skip(1))
    }
}

proof fn lemma_key_less_skip(a: Seq<u64>, b: Seq<u64>, n: int)
    requires
        0 <= n <= a.len(),
        n <= b.len(),
        forall|i: int| 0 <= i < n ==> a[i] == b[i],
    ensures
        key_less(a, b) == key_less(a.skip(n), b.skip(n)),
    decreases n,
{
    if n == 0 {
        assert(a.skip(0) =~= a);
        assert(b.skip(0) =~= b);
    } else {
        let a1 = a.skip(1);
        let b1 = b.skip(1);
        assert forall|i: int| 0 <= i < n - 1 implies a1[i] == b1[i] by {
            assert(a1[i] == a[i + 1]);
            assert(b1[i] == b[i + 1]);
        }
        lemma_key_less_skip(a1, b1, n - 1);
        assert(a1.skip(n - 1) =~= a.skip(n));
        assert(b1.skip(n - 1) =~= b.skip(n));
    }
}

/// No key comes before itself, and of two different keys exactly one comes
/// before the other.
pub proof fn law_key_order_total(a: Seq<u64>, b: Seq<u64>)
    ensures
        !(key_less(a, b) && key_less(b, a)),
        (!key_less(a, b) && !key_less(b, a)) <==> a == b,
    decreases b.len(),
{
    if a.len() > 0 && b.len() > 0 {
        law_key_order_total(a.skip(1), b.skip(1));
        if a[0] == b[0] && a.skip(1) == b.skip(1) {
            assert forall|i: int| 0 <= i < a.len() implies a[i] == b[i] by {
                if i > 0 {
                    assert(a[i] == a.skip(1)[i - 1]);
                    assert(b[i] == b.skip(1)[i - 1]);
                }
            }
            assert(a.len() == a.skip(1).len() + 1);
            assert(b.len() == b.skip(1).len() + 1);
            assert(a =~= b);
        }
    } else if a.len() == 0 && b.len() == 0 {
        assert(a =~= b);
    }
}

/// The order of keys is transitive.
pub proof fn law_key_order_transitive(a: Seq<u64>, b: Seq<u64>, c: Seq<u64>)
    requires
        key_less(a, b),
        key_less(b, c),
    ensures
        key_less(a, c),
    decreases c.len(),
{
    if a.len() > 0 && a[0] == b[0] && b[0] == c[0] {
        law_key_order_transitive(a.skip(1), b.skip(1), c.skip(1));
    }
}

/// The first place where two keys differ decides which comes first; where
/// there is none, the shorter one does.
pub proof fn law_first_difference_decides(a: Seq<u64>, b: Seq<u64>, i: int)
    requires
        0 <= i < b.len(),
        i <= a.len(),
        forall|j: int| 0 <= j < i ==> a[j] == b[j],
        i < a.len() ==> a[i] < b[i],
    ensures
        key_less(a, b),
        !key_less(b, a),
{
    lemma_key_less_skip(a, b, i);
    law_key_order_total(a, b);
}

/// Whether key `a` comes before key `b`.
pub fn key_is_less(a: &Vec<u64>, b: &Vec<u64>) -> (r: bool)
    ensures
        r == key_less(a@, b@),
{
    let mut i: usize = 0;
    while i < a.len() && i < b.len()
        invariant
            i <= a@.len(),
            i <= b@.len(),
            forall|j: int| 0 <= j < i ==> a@[j] == b@[j],
        decreases a.len() - i,
    {
        if a[i] != b[i] {
            proof {
                lemma_key_less_skip(a@, b@, i as int);
            }
            return a[i] < b[i];
        }
        i += 1;
    }
    proof {
        lemma_key_less_skip(a@, b@, i as int);
    }
    i < b.len()
}

/// Which end of the order a list begins at.
#[derive(Clone, Copy)]
pub enum Direction {
    Ascending,
    Descending,
}

/// Whether an item with key `a` belongs before one with key `b`.
pub open spec fn precedes(dir: Direction, a: Seq<u64>, b: Seq<u64>) -> bool {
    match dir {
        Direction::Ascending => key_less(a, b),
        Direction::Descending => key_less(b, a),
    }
}

/// The predicate that holds of the items with the key `k`.
pub open spec fn has_key<T>(key: spec_fn(T) -> Seq<u64>, k: Seq<u64>) -> spec_fn(T) -> bool {
    |x: T| key(x) == k
}

/// The items of `s` that have the key `k`, in the order of `s`.
pub open spec fn with_key<T>(s: Seq<T>, key: spec_fn(T) -> Seq<u64>, k: Seq<u64>) -> Seq<T> {
    s.filter(has_key(key, k))
}

/// Whether `output` holds the items of `input` sorted by their keys, those
/// with the same key in the order in which they stand in `input`.
pub open spec fn sorted_from<T>(
    dir: Direction,
    input: Seq<T>,
    output: Seq<T>,
    key: spec_fn(T) -> Seq<u64>,
) -> bool {
    &&& forall|i: int, j: int|
        0 <= i < j < output.len() ==> !precedes(
            dir,
            key(#[trigger] output[j]),
            key(#[trigger] output[i]),
        )
    &&& forall|k: Seq<u64>| #[trigger] with_key(output, key, k) == with_key(input, key, k)
}

proof fn lemma_sorted_empty<T>(dir: Direction, key: spec_fn(T) -> Seq<u64>)
    ensures
        sorted_from(dir, Seq::<T>::empty(), Seq::<T>::empty(), key),
{
}

proof fn lemma_sorted_insert<T>(
    dir: Direction,
    input: Seq<T>,
    output: Seq<T>,
    key: spec_fn(T) -> Seq<u64>,
    x: T,
    p: int,
)
    requires
        sorted_from(dir, input, output, key),
        0 <= p <= output.len(),
        forall|i: int| 0 <= i < p ==> !precedes(dir, key(x), key(#[trigger] output[i])),
        forall|i: int| p <= i < output.len() ==> precedes(dir, key(x), key(#[trigger] output[i])),
    ensures
        sorted_from(dir, input.push(x), output.insert(p, x), key),
{
    let r = output.insert(p, x);
    assert forall|i: int, j: int| 0 <= i < j < r.len() implies !precedes(
        dir,
        key(#[trigger] r[j]),
        key(#[trigger] r[i]),
    ) by {
        let oi = if i < p { i } else { i - 1 };
        let oj = if j < p { j } else { j - 1 };
        if i == p {
            law_key_order_total(key(x), key(output[oj]));
        } else if j == p {
        } else {
            assert(r[i] == output[oi]);
            assert(r[j] == output[oj]);
        }
    }
    assert forall|k: Seq<u64>| #[trigger] with_key(r, key, k) == with_key(input.push(x), key, k) by {
        let f = has_key(key, k);
        let front = output.take(p);
        let back = output.skip(p);
        assert(output =~= front + back);
        assert(r =~= front + (seq![x] + back));
        Seq::filter_distributes_over_add(front, back, f);
        Seq::filter_distributes_over_add(front, seq![x] + back, f);
        Seq::filter_distributes_over_add(seq![x], back, f);
        assert(input.push(x) =~= input + seq![x]);
        Seq::filter_distributes_over_add(input, seq![x], f);
        assert(with_key(output, key, k) == with_key(input, key, k));
        if f(x) {
            assert forall|i: int| 0 <= i < back.len() implies !f(#[trigger] back[i]) by {
                assert(back[i] == output[p + i]);
                law_key_order_total(key(x), key(output[p + i]));
            }
            back.lemma_all_neg_filter_empty(f);
            assert(back.filter(f) =~= Seq::<T>::empty());
            assert(r.filter(f) =~= output.filter(f) + seq![x].filter(f));
        } else {
            seq![x].lemma_all_neg_filter_empty(f);
            assert(seq![x].filter(f) =~= Seq::<T>::empty());
            assert(r.filter(f) =~= output.filter(f));
            assert(input.push(x).filter(f) =~= input.filter(f));
        }
    }
}

/// Puts `item` into `items`, which stand in the order of `keys`, behind all
/// items that do not belong after it, and its key into `keys` at the same
/// place. Returns the place.
fn insert_in_order<T>(
    dir: Direction,
    items: &mut Vec<T>,
    keys: &mut Vec<Vec<u64>>,
    item: T,
    key: Vec<u64>,
) -> (p: usize)
    requires
        old(items)@.len() == old(keys)@.len(),
        forall|i: int, j: int|
            0 <= i < j < old(keys)@.len() ==> !precedes(
                dir,
                (#[trigger] old(keys)@[j])@,
                (#[trigger] old(keys)@[i])@,
            ),
    ensures
        p <= old(items)@.len(),
        final(items)@ == old(items)@.insert(p as int, item),
        final(keys)@ == old(keys)@.insert(p as int, key),
        forall|i: int| 0 <= i < p ==> !precedes(dir, key@, (#[trigger] old(keys)@[i])@),
        forall|i: int|
            p <= i < old(keys)@.len() ==> precedes(dir, key@, (#[trigger] old(keys)@[i])@),
{
    let mut low: usize = 0;
    let mut high: usize = keys.len();
    while low < high
        invariant
            low <= high <= keys@.len(),
            keys@ == old(keys)@,
            forall|i: int, j: int|
                0 <= i < j < keys@.len() ==> !precedes(
                    dir,
                    (#[trigger] keys@[j])@,
                    (#[trigger] keys@[i])@,
                ),
            forall|i: int| 0 <= i < low ==> !precedes(dir, key@, (#[trigger] keys@[i])@),
            forall|i: int| high <= i < keys@.len() ==> precedes(dir, key@, (#[trigger] keys@[i])@),
        decreases high - low,
    {
        let mid: usize = low + (high - low) / 2;
        let before = match dir {
            Direction::Ascending => key_is_less(&key, &keys[mid]),
            Direction::Descending => key_is_less(&keys[mid], &key),
        };
        if before {
            assert forall|i: int| mid <= i < keys@.len() implies precedes(
                dir,
                key@,
                (#[trigger] keys@[i])@,
            ) by {
                if i > mid {
                    let km = keys@[mid as int]@;
                    let ki = keys@[i]@;
                    assert(!precedes(dir, ki, km));
                    law_key_order_total(km, ki);
                    if km != ki {
                        law_key_order_total(key@, km);
                        match dir {
                            Direction::Ascending => law_key_order_transitive(key@, km, ki),
                            Direction::Descending => law_key_order_transitive(ki, km, key@),
                        }
                    }
                }
            }
            high = mid;
        } else {
            assert forall|i: int| 0 <= i <= mid implies !precedes(
                dir,
                key@,
                (#[trigger] keys@[i])@,
            ) by {
                if i < mid && precedes(dir, key@, keys@[i]@) {
                    assert(!precedes(dir, keys@[mid as int]@, keys@[i]@));
                    law_key_order_total(keys@[i]@, keys@[mid as int]@);
                    if keys@[i]@ != keys@[mid as int]@ {
                        match dir {
                            Direction::Ascending => law_key_order_transitive(
                                key@,
                                keys@[i]@,
                                keys@[mid as int]@,
                            ),
                            Direction::Descending => law_key_order_transitive(
                                keys@[mid as int]@,
                                keys@[i]@,
                                key@,
                            ),
                        }
                    }
                }
            }
            low = mid + 1;
        }
    }
    items.insert(low, item);
    keys.insert(low, key);
    low
}

/// Sorts `items` by `keys`, which holds one key for each of them; those with
/// the same key stay in their order.
pub(crate) fn sort_by_keys<T>(
    dir: Direction,
    items: Vec<T>,
    keys: Vec<Vec<u64>>,
    Ghost(key): Ghost<spec_fn(T) -> Seq<u64>>,
) -> (r: Vec<T>)
    requires
        items@.len() == keys@.len(),
        forall|i: int| 0 <= i < items@.len() ==> (#[trigger] keys@[i])@ == key(items@[i]),
    ensures
        sorted_from(dir, items@, r@, key),
{
    let mut r: Vec<T> = Vec::new();
    let mut placed: Vec<Vec<u64>> = Vec::new();
    let mut left: Vec<Vec<u64>> = keys;
    let ghost all = items@;
    proof {
        lemma_sorted_empty(dir, key);
        assert(all.take(0) =~= Seq::<T>::empty());
        assert(keys@.skip(0) =~= keys@);
    }
    for item in it: items
        invariant
            it.seq() == all,
            all.len() == keys@.len(),
            forall|i: int| 0 <= i < all.len() ==> (#[trigger] keys@[i])@ == key(all[i]),
            left@ == keys@.skip(it.index()),
            sorted_from(dir, all.take(it.index()), r@, key),
            placed@.len() == r@.len(),
            forall|i: int| 0 <= i < r@.len() ==> (#[trigger] placed@[i])@ == key(r@[i]),
    {
        let ghost k = it.index();
        let ghost prior = r@;
        let ghost prior_keys = placed@;
        let item_key = left.remove(0);
        assert(item_key == keys@[k]);
        assert(left@ =~= keys@.skip(k + 1));
        let p = insert_in_order(dir, &mut r, &mut placed, item, item_key);
        proof {
            assert forall|i: int| 0 <= i < p implies !precedes(
                dir,
                key(item),
                key(#[trigger] prior[i]),
            ) by {
                assert(prior_keys[i]@ == key(prior[i]));
            }
            assert forall|i: int| p <= i < prior.len() implies precedes(
                dir,
                key(item),
                key(#[trigger] prior[i]),
            ) by {
                assert(prior_keys[i]@ == key(prior[i]));
            }
            lemma_sorted_insert(dir, all.take(k), prior, key, item, p as int);
            assert(all.take(k + 1) =~= all.take(k).push(item));
            assert forall|i: int| 0 <= i < r@.len() implies (#[trigger] placed@[i])@ == key(
                r@[i],
            ) by {
                if i < p {
                    assert(placed@[i] == prior_keys[i]);
                } else if i > p {
                    assert(placed@[i] == prior_keys[i - 1]);
                }
            }
        }
    }
    assert(all.take(all.len() as int) =~= all);
    r
}

proof fn lemma_with_key_map<T, U>(
    s: Seq<T>,
    key: spec_fn(T) -> Seq<u64>,
    f: spec_fn(T) -> U,
    mapped_key: spec_fn(U) -> Seq<u64>,
    k: Seq<u64>,
)
    requires
        forall|x: T| #[trigger] key(x) == mapped_key(f(x)),
    ensures
        with_key(s.map_values(f), mapped_key, k) == with_key(s, key, k).map_values(f),
    decreases s.len(),
{
    reveal(Seq::filter);
    if s.len() > 0 {
        lemma_with_key_map(s.drop_last(), key, f, mapped_key, k);
        assert(s.map_values(f).drop_last() =~= s.drop_last().map_values(f));
        assert(key(s.last()) == mapped_key(f(s.last())));
    }
    assert(with_key(s.map_values(f), mapped_key, k) =~= with_key(s, key, k).map_values(f));
}

/// Items that stand for sorted items, and have their keys, are sorted.
pub(crate) proof fn lemma_sorted_map<T, U>(
    dir: Direction,
    input: Seq<T>,
    output: Seq<T>,
    key: spec_fn(T) -> Seq<u64>,
    f: spec_fn(T) -> U,
    mapped_key: spec_fn(U) -> Seq<u64>,
)
    requires
        sorted_from(dir, input, output, key),
        forall|x: T| #[trigger] key(x) == mapped_key(f(x)),
    ensures
        sorted_from(dir, input.map_values(f), output.map_values(f), mapped_key),
{
    let mapped = output.map_values(f);
    assert forall|i: int, j: int| 0 <= i < j < mapped.len() implies !precedes(
        dir,
        mapped_key(#[trigger] mapped[j]),
        mapped_key(#[trigger] mapped[i]),
    ) by {
        assert(key(output[i]) == mapped_key(f(output[i])));
        assert(key(output[j]) == mapped_key(f(output[j])));
    }
    assert forall|k: Seq<u64>| #[trigger] with_key(mapped, mapped_key, k) == with_key(
        input.map_values(f),
        mapped_key,
        k,
    ) by {
        lemma_with_key_map(input, key, f, mapped_key, k);
        lemma_with_key_map(output, key, f, mapped_key, k);
        assert(with_key(output, key, k) == with_key(input, key, k));
    }
}

proof fn lemma_with_key_first<T>(s: Seq<T>, key: spec_fn(T) -> Seq<u64>, k: Seq<u64>)
    requires
        s.len() > 0,
    ensures
        with_key(s, key, k) == if key(s[0]) == k {
            seq![s[0]] + with_key(s.skip(1), key, k)
        } else {
            with_key(s.skip(1), key, k)
        },
{
    let f = has_key(key, k);
    assert(s =~= seq![s[0]] + s.skip(1));
    Seq::filter_distributes_over_add(seq![s[0]], s.skip(1), f);
    reveal(Seq::filter);
    assert(seq![s[0]].drop_last() =~= Seq::<T>::empty());
    assert(seq![s[0]].drop_last().filter(f) =~= Seq::<T>::empty());
    if f(s[0]) {
        assert(seq![s[0]].filter(f) =~= seq![s[0]]);
    } else {
        assert(seq![s[0]].filter(f) =~= Seq::<T>::empty());
        assert(Seq::<T>::empty() + s.skip(1).filter(f) =~= s.skip(1).filter(f));
    }
}

proof fn lemma_with_key_found<T>(s: Seq<T>, key: spec_fn(T) -> Seq<u64>, k: Seq<u64>)
    requires
        with_key(s, key, k).len() > 0,
    ensures
        exists|i: int| 0 <= i < s.len() && key(#[trigger] s[i]) == k,
{
    let f = has_key(key, k);
    if forall|i: int| 0 <= i < s.len() ==> key(#[trigger] s[i]) != k {
        assert forall|i: int| 0 <= i < s.len() implies !f(#[trigger] s[i]) by {}
        s.lemma_all_neg_filter_empty(f);
    }
}

/// A list can be sorted in one way only.
pub proof fn law_sorted_unique<T>(
    dir: Direction,
    input: Seq<T>,
    a: Seq<T>,
    b: Seq<T>,
    key: spec_fn(T) -> Seq<u64>,
)
    requires
        sorted_from(dir, input, a, key),
        sorted_from(dir, input, b, key),
    ensures
        a == b,
{
    assert forall|k: Seq<u64>| #[trigger] with_key(a, key, k) == with_key(b, key, k) by {
        assert(with_key(a, key, k) == with_key(input, key, k));
        assert(with_key(b, key, k) == with_key(input, key, k));
    }
    lemma_same_groups(dir, a, b, key);
}

proof fn lemma_same_groups<T>(dir: Direction, a: Seq<T>, b: Seq<T>, key: spec_fn(T) -> Seq<u64>)
    requires
        forall|i: int, j: int|
            0 <= i < j < a.len() ==> !precedes(dir, key(#[trigger] a[j]), key(#[trigger] a[i])),
        forall|i: int, j: int|
            0 <= i < j < b.len() ==> !precedes(dir, key(#[trigger] b[j]), key(#[trigger] b[i])),
        forall|k: Seq<u64>| #[trigger] with_key(a, key, k) == with_key(b, key, k),
    ensures
        a == b,
    decreases a.len(),
{
    if a.len() == 0 {
        if b.len() > 0 {
            let k = key(b[0]);
            lemma_with_key_first(b, key, k);
            assert(with_key(a, key, k) == with_key(b, key, k));
            lemma_with_key_found(a, key, k);
        }
        assert(a =~= b);
    } else {
        let ka = key(a[0]);
        lemma_with_key_first(a, key, ka);
        assert(with_key(a, key, ka) == with_key(b, key, ka));
        lemma_with_key_found(b, key, ka);
        let kb = key(b[0]);
        lemma_with_key_first(b, key, kb);
        assert(with_key(a, key, kb) == with_key(b, key, kb));
        lemma_with_key_found(a, key, kb);
        let i = choose|i: int| 0 <= i < b.len() && key(#[trigger] b[i]) == ka;
        let j = choose|j: int| 0 <= j < a.len() && key(#[trigger] a[j]) == kb;
        law_key_order_total(ka, kb);
        assert(ka == kb) by {
            if i > 0 {
                assert(!precedes(dir, key(b[i]), key(b[0])));
            }
            if j > 0 {
                assert(!precedes(dir, key(a[j]), key(a[0])));
            }
        }
        assert(a[0] == with_key(a, key, ka)[0]);
        assert(b[0] == with_key(b, key, kb)[0]);
        let a1 = a.skip(1);
        let b1 = b.skip(1);
        assert forall|k: Seq<u64>| #[trigger] with_key(a1, key, k) == with_key(b1, key, k) by {
            lemma_with_key_first(a, key, k);
            lemma_with_key_first(b, key, k);
            assert(with_key(a, key, k) == with_key(b, key, k));
            if k == ka {
                assert(with_key(a1, key, k) =~= with_key(a, key, k).skip(1));
                assert(with_key(b1, key, k) =~= with_key(b, key, k).skip(1));
            }
        }
        lemma_same_groups(dir, a1, b1, key);
        assert(a =~= seq![a[0]] + a1);
        assert(b =~= seq![b[0]] + b1);
    }
}

proof fn lemma_count_with_key<T>(s: Seq<T>, key: spec_fn(T) -> Seq<u64>, x: T)
    ensures
        with_key(s, key, key(x)).to_multiset().count(x) == s.to_multiset().count(x),
    decreases s.len(),
{
    broadcast use vstd::seq_lib::group_to_multiset_ensures;

    reveal(Seq::filter);
    if s.len() > 0 {
        let rest = s.drop_last();
        lemma_count_with_key(rest, key, x);
        assert(s =~= rest.push(s.last()));
    }
}

/// Sorting neither loses nor adds an item.
pub proof fn law_sorted_keeps_items<T>(
    dir: Direction,
    input: Seq<T>,
    output: Seq<T>,
    key: spec_fn(T) -> Seq<u64>,
)
    requires
        sorted_from(dir, input, output, key),
    ensures
        output.to_multiset() == input.to_multiset(),
        output.len() == input.len(),
{
    broadcast use vstd::seq_lib::group_to_multiset_ensures;

    assert forall|x: T| output.to_multiset().count(x) == input.to_multiset().count(x) by {
        lemma_count_with_key(input, key, x);
        lemma_count_with_key(output, key, x);
        assert(with_key(output, key, key(x)) == with_key(input, key, key(x)));
    }
    assert(output.to_multiset() =~= input.to_multiset());
    assert(output.to_multiset().len() == input.to_multiset().len());
}

/// A sorted list begins with the smallest keys or with the greatest, as asked;
/// the items with one key are those of the input, all of them, in the order
/// they had there; and a list that is in order already stays as it is.
pub proof fn law_sorted_shape<T>(
    dir: Direction,
    input: Seq<T>,
    output: Seq<T>,
    key: spec_fn(T) -> Seq<u64>,
    i: int,
    j: int,
    k: Seq<u64>,
)
    requires
        sorted_from(dir, input, output, key),
        0 <= i < j < output.len(),
    ensures
        dir is Ascending ==> !key_less(key(output[j]), key(output[i])),
        dir is Descending ==> !key_less(key(output[i]), key(output[j])),
        output.filter(has_key(key, k)) == input.filter(has_key(key, k)),
        (forall|a: int, b: int|
            0 <= a < b < input.len() ==> !precedes(
                dir,
                key(#[trigger] input[b]),
                key(#[trigger] input[a]),
            )) ==> output == input,
{
    assert(!precedes(dir, key(output[j]), key(output[i])));
    assert(with_key(output, key, k) == with_key(input, key, k));
    if forall|a: int, b: int|
        0 <= a < b < input.len() ==> !precedes(
            dir,
            key(#[trigger] input[b]),
            key(#[trigger] input[a]),
        ) {
        assert(sorted_from(dir, input, input, key));
        law_sorted_unique(dir, input, output, input, key);
    }
}

pub(crate) proof fn lemma_filter_map_add<A, B>(a: Seq<A>, b: Seq<A>, f: spec_fn(A) -> Option<B>)
    ensures
        (a + b).filter_map(f) == a.filter_map(f) + b.filter_map(f),
    decreases b.len(),
{
    reveal_with_fuel(Seq::filter_map, 2);
    if b.len() == 0 {
        assert(a + b =~= a);
        assert(b.filter_map(f) =~= Seq::<B>::empty());
        assert(a.filter_map(f) + b.filter_map(f) =~= a.filter_map(f));
    } else {
        lemma_filter_map_add(a, b.drop_last(), f);
        assert((a + b).drop_last() =~= a + b.drop_last());
        assert((a + b).last() == b.last());
        assert((a + b).filter_map(f) =~= a.filter_map(f) + b.filter_map(f));
    }
}

pub(crate) proof fn lemma_filter_map_all<A, B>(
    s: Seq<A>,
    f: spec_fn(A) -> Option<B>,
    images: Seq<B>,
)
    requires
        s.len() == images.len(),
        forall|i: int| 0 <= i < s.len() ==> f(#[trigger] s[i]) == Some(images[i]),
    ensures
        s.filter_map(f) == images,
    decreases s.len(),
{
    reveal_with_fuel(Seq::filter_map, 2);
    if s.len() > 0 {
        let t = s.drop_last();
        let rest = images.drop_last();
        assert forall|i: int| 0 <= i < t.len() implies f(#[trigger] t[i]) == Some(rest[i]) by {
            assert(t[i] == s[i]);
        }
        lemma_filter_map_all(t, f, rest);
        assert(f(s[s.len() - 1]) == Some(images[images.len() - 1]));
        assert(rest + seq![images.last()] =~= images);
    } else {
        assert(s.filter_map(f) =~= images);
    }
}

pub(crate) proof fn lemma_filter_map_one<A, B>(x: A, f: spec_fn(A) -> Option<B>)
    ensures
        f(x) is None ==> seq![x].filter_map(f) == Seq::<B>::empty(),
        f(x) matches Some(y) ==> seq![x].filter_map(f) == seq![y],
{
    Seq::<A>::lemma_filter_map_singleton(x, f);
}

} // verus!
