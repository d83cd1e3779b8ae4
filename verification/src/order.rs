//! Stable ordering of a sequence by an integer key, as a mathematical
//! function, with the facts about it that the rest of the library uses.

use vstd::prelude::*;

verus! {

/// The keys of `s` never decrease.
pub open spec fn is_sorted_by<T>(s: Seq<T>, key: spec_fn(T) -> int) -> bool {
    forall|i: int, j: int| 0 <= i <= j < s.len() ==> key(#[trigger] s[i]) <= key(#[trigger] s[j])
}

/// Where an element with key `k` goes into `s`: behind the last element
/// whose key is at most `k`.
pub open spec fn insert_position<T>(s: Seq<T>, key: spec_fn(T) -> int, k: int) -> int
    decreases s.len(),
{
    if s.len() == 0 {
        0
    } else if key(s.last()) <= k {
        s.len() as int
    } else {
        insert_position(s.drop_last(), key, k)
    }
}

/// `s` with `x` put in behind the last element whose key is at most that of `x`.
pub open spec fn insert_by<T>(s: Seq<T>, key: spec_fn(T) -> int, x: T) -> Seq<T> {
    s.insert(insert_position(s, key, key(x)), x)
}

/// `s` in the order of its keys; elements with the same key keep the order
/// in which they stand in `s`.
pub open spec fn sort_by<T>(s: Seq<T>, key: spec_fn(T) -> int) -> Seq<T>
    decreases s.len(),
{
    if s.len() == 0 {
        Seq::empty()
    } else {
        insert_by(sort_by(s.drop_last(), key), key, s.last())
    }
}

/// The insert position is the index `p` from which on every key is above `k`
/// and before which the nearest key is not.
pub proof fn lemma_insert_position<T>(s: Seq<T>, key: spec_fn(T) -> int, k: int, p: int)
    requires
        0 <= p <= s.len(),
        forall|i: int| p <= i < s.len() ==> key(#[trigger] s[i]) > k,
        p == 0 || key(s[p - 1]) <= k,
    ensures
        insert_position(s, key, k) == p,
    decreases s.len(),
{
    if s.len() > 0 && p < s.len() {
        let rest = s.drop_last();
        assert(key(s[s.len() - 1]) > k);
        assert forall|i: int| p <= i < rest.len() implies key(#[trigger] rest[i]) > k by {
            assert(rest[i] == s[i]);
        }
        if p > 0 {
            assert(rest[p - 1] == s[p - 1]);
        }
        lemma_insert_position(rest, key, k, p);
    }
}

/// The insert position lies within the sequence; in a sorted sequence the
/// keys before it are at most `k` and the keys from it on are above `k`.
pub proof fn lemma_insert_position_bounds<T>(s: Seq<T>, key: spec_fn(T) -> int, k: int)
    ensures
        0 <= insert_position(s, key, k) <= s.len(),
        forall|i: int| insert_position(s, key, k) <= i < s.len() ==> key(#[trigger] s[i]) > k,
        is_sorted_by(s, key) ==> forall|i: int|
            0 <= i < insert_position(s, key, k) ==> key(#[trigger] s[i]) <= k,
    decreases s.len(),
{
    if s.len() > 0 {
        let rest = s.drop_last();
        lemma_insert_position_bounds(rest, key, k);
        let p = insert_position(s, key, k);
        if key(s.last()) <= k {
            if is_sorted_by(s, key) {
                assert forall|i: int| 0 <= i < p implies key(#[trigger] s[i]) <= k by {
                    assert(key(s[i]) <= key(s[s.len() - 1]));
                }
            }
        } else {
            assert forall|i: int| p <= i < s.len() implies key(#[trigger] s[i]) > k by {
                if i < rest.len() {
                    assert(rest[i] == s[i]);
                }
            }
            if is_sorted_by(s, key) {
                assert forall|i: int, j: int| 0 <= i <= j < rest.len() implies key(#[trigger] rest[i])
                    <= key(#[trigger] rest[j]) by {
                    assert(rest[i] == s[i] && rest[j] == s[j]);
                }
                assert forall|i: int| 0 <= i < p implies key(#[trigger] s[i]) <= k by {
                    assert(rest[i] == s[i]);
                }
            }
        }
    }
}

/// Inserting into a sorted sequence leaves it sorted.
pub proof fn lemma_insert_sorted<T>(s: Seq<T>, key: spec_fn(T) -> int, x: T)
    requires
        is_sorted_by(s, key),
    ensures
        is_sorted_by(insert_by(s, key, x), key),
        insert_by(s, key, x).len() == s.len() + 1,
{
    lemma_insert_position_bounds(s, key, key(x));
    let p = insert_position(s, key, key(x));
    let r = insert_by(s, key, x);
    assert forall|i: int, j: int| 0 <= i <= j < r.len() implies key(#[trigger] r[i]) <= key(
        #[trigger] r[j],
    ) by {
        if i < p {
            assert(r[i] == s[i]);
        } else if i > p {
            assert(r[i] == s[i - 1]);
        }
        if j < p {
            assert(r[j] == s[j]);
        } else if j > p {
            assert(r[j] == s[j - 1]);
        }
    }
}

/// Sorting gives a sorted sequence of the same length.
pub proof fn lemma_sort_sorted<T>(s: Seq<T>, key: spec_fn(T) -> int)
    ensures
        is_sorted_by(sort_by(s, key), key),
        sort_by(s, key).len() == s.len(),
    decreases s.len(),
{
    if s.len() > 0 {
        lemma_sort_sorted(s.drop_last(), key);
        lemma_insert_sorted(sort_by(s.drop_last(), key), key, s.last());
    }
}

/// Sorting keeps the elements: what stands in the result stands in `s`, and
/// what stands in `s` stands in the result.
pub proof fn lemma_sort_same_elements<T>(s: Seq<T>, key: spec_fn(T) -> int)
    ensures
        forall|i: int| 0 <= i < s.len() ==> sort_by(s, key).contains(#[trigger] s[i]),
        forall|j: int|
            0 <= j < sort_by(s, key).len() ==> s.contains(#[trigger] sort_by(s, key)[j]),
    decreases s.len(),
{
    if s.len() > 0 {
        let rest = s.drop_last();
        lemma_sort_same_elements(rest, key);
        lemma_sort_sorted(rest, key);
        let sorted = sort_by(rest, key);
        lemma_insert_position_bounds(sorted, key, key(s.last()));
        let p = insert_position(sorted, key, key(s.last()));
        let r = sort_by(s, key);
        assert forall|i: int| 0 <= i < s.len() implies r.contains(#[trigger] s[i]) by {
            if i < rest.len() {
                assert(rest[i] == s[i]);
                let j = choose|j: int| 0 <= j < sorted.len() && sorted[j] == rest[i];
                if j < p {
                    assert(r[j] == s[i]);
                } else {
                    assert(r[j + 1] == s[i]);
                }
            } else {
                assert(r[p] == s[i]);
            }
        }
        assert forall|j: int| 0 <= j < r.len() implies s.contains(#[trigger] r[j]) by {
            if j == p {
                assert(s[s.len() - 1] == r[j]);
            } else {
                let x = if j < p {
                    sorted[j]
                } else {
                    sorted[j - 1]
                };
                assert(r[j] == x);
                assert(rest.contains(x));
                let i = choose|i: int| 0 <= i < rest.len() && rest[i] == x;
                assert(s[i] == x);
            }
        }
    }
}

/// No element stands twice in `s`.
pub open spec fn is_distinct<T>(s: Seq<T>) -> bool {
    forall|i: int, j: int| 0 <= i < j < s.len() ==> #[trigger] s[i] != #[trigger] s[j]
}

/// Sorting a sequence in which no element stands twice gives such a sequence.
pub proof fn lemma_sort_distinct<T>(s: Seq<T>, key: spec_fn(T) -> int)
    requires
        is_distinct(s),
    ensures
        is_distinct(sort_by(s, key)),
    decreases s.len(),
{
    if s.len() > 0 {
        let rest = s.drop_last();
        let x = s.last();
        assert forall|i: int, j: int| 0 <= i < j < rest.len() implies #[trigger] rest[i] != #[trigger] rest[j] by {
            assert(rest[i] == s[i] && rest[j] == s[j]);
        }
        lemma_sort_distinct(rest, key);
        lemma_sort_same_elements(rest, key);
        let sorted = sort_by(rest, key);
        lemma_insert_position_bounds(sorted, key, key(x));
        let p = insert_position(sorted, key, key(x));
        let r = sort_by(s, key);
        assert forall|i: int| 0 <= i < sorted.len() implies #[trigger] sorted[i] != x by {
            assert(rest.contains(sorted[i]));
            let k = choose|k: int| 0 <= k < rest.len() && rest[k] == sorted[i];
            assert(s[k] != s[s.len() - 1]);
        }
        assert forall|i: int, j: int| 0 <= i < j < r.len() implies #[trigger] r[i] != #[trigger] r[j] by {
            let a = if i < p {
                i
            } else {
                i - 1
            };
            let b = if j < p {
                j
            } else {
                j - 1
            };
            if i == p {
                assert(r[j] == sorted[b]);
            } else if j == p {
                assert(r[i] == sorted[a]);
            } else {
                assert(r[i] == sorted[a] && r[j] == sorted[b]);
            }
        }
    }
}

/// Sorting a sorted sequence changes nothing.
pub proof fn lemma_sort_of_sorted<T>(s: Seq<T>, key: spec_fn(T) -> int)
    requires
        is_sorted_by(s, key),
    ensures
        sort_by(s, key) == s,
    decreases s.len(),
{
    if s.len() > 0 {
        let rest = s.drop_last();
        assert forall|i: int, j: int| 0 <= i <= j < rest.len() implies key(#[trigger] rest[i]) <= key(
            #[trigger] rest[j],
        ) by {
            assert(rest[i] == s[i] && rest[j] == s[j]);
        }
        lemma_sort_of_sorted(rest, key);
        assert(rest.len() == 0 || key(rest[rest.len() - 1]) <= key(s.last())) by {
            if rest.len() > 0 {
                assert(rest[rest.len() - 1] == s[s.len() - 2]);
            }
        }
        lemma_insert_position(rest, key, key(s.last()), rest.len() as int);
        assert(rest.insert(rest.len() as int, s.last()) == s);
    }
}

/// The first `n` elements of `s`, or all of them if there are fewer.
pub open spec fn first_n<T>(s: Seq<T>, n: int) -> Seq<T> {
    if n <= 0 {
        Seq::empty()
    } else if n >= s.len() {
        s
    } else {
        s.take(n)
    }
}

/// The start of a sorted sequence is sorted.
pub proof fn lemma_first_n_sorted<T>(s: Seq<T>, key: spec_fn(T) -> int, n: int)
    requires
        is_sorted_by(s, key),
    ensures
        is_sorted_by(first_n(s, n), key),
{
    let f = first_n(s, n);
    assert forall|i: int, j: int| 0 <= i <= j < f.len() implies key(#[trigger] f[i]) <= key(
        #[trigger] f[j],
    ) by {
        assert(f[i] == s[i] && f[j] == s[j]);
    }
}

/// For the first `n` elements after an insertion, only the first `n`
/// elements before it count.
pub proof fn lemma_insert_first_n<T>(s: Seq<T>, key: spec_fn(T) -> int, x: T, n: int)
    requires
        is_sorted_by(s, key),
    ensures
        first_n(insert_by(s, key, x), n) == first_n(insert_by(first_n(s, n), key, x), n),
{
    if 0 < n < s.len() {
        let k = key(x);
        let f = first_n(s, n);
        let p = insert_position(s, key, k);
        lemma_insert_position_bounds(s, key, k);
        let q = if p < n {
            p
        } else {
            n
        };
        assert forall|i: int| q <= i < f.len() implies key(#[trigger] f[i]) > k by {
            assert(f[i] == s[i]);
        }
        if q > 0 {
            assert(f[q - 1] == s[q - 1]);
        }
        lemma_insert_position(f, key, k, q);
        assert(first_n(insert_by(s, key, x), n) =~= first_n(insert_by(f, key, x), n));
    }
}

} // verus!
