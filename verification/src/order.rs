//! Stable sorting by an integer key, as a mathematical function on
//! sequences.

use vstd::prelude::*;

verus! {

/// The position of the first element of `s` at or after `from` whose key is
/// above `k`; the length of `s` where there is none.
pub open spec fn upper_bound<A>(s: Seq<A>, key: spec_fn(A) -> int, k: int, from: int) -> int
    decreases s.len() - from,
{
    if from < 0 || from >= s.len() {
        s.len() as int
    } else if key(s[from]) > k {
        from
    } else {
        upper_bound(s, key, k, from + 1)
    }
}

/// `s` in ascending order of key, elements of equal key in the order in
/// which they stand in `s`: each element in turn is put behind all those
/// already placed whose key is not above its own.
pub open spec fn stable_sort<A>(s: Seq<A>, key: spec_fn(A) -> int) -> Seq<A>
    decreases s.len(),
{
    if s.len() == 0 {
        s
    } else {
        let placed = stable_sort(s.drop_last(), key);
        placed.insert(upper_bound(placed, key, key(s.last()), 0), s.last())
    }
}

/// Whether the keys of `s` never fall from one element to the next.
pub open spec fn ascending<A>(s: Seq<A>, key: spec_fn(A) -> int) -> bool {
    forall|i: int, j: int| 0 <= i < j < s.len() ==> key(s[i]) <= key(s[j])
}

/// Where the bound lies: inside the sequence, with no key above `k` before
/// it from `from` on.
pub proof fn lemma_upper_bound<A>(s: Seq<A>, key: spec_fn(A) -> int, k: int, from: int)
    requires
        0 <= from <= s.len(),
    ensures
        from <= upper_bound(s, key, k, from) <= s.len(),
        forall|i: int| from <= i < upper_bound(s, key, k, from) ==> key(#[trigger] s[i]) <= k,
        upper_bound(s, key, k, from) < s.len() ==> key(s[upper_bound(s, key, k, from)]) > k,
    decreases s.len() - from,
{
    if from < s.len() && key(s[from]) <= k {
        lemma_upper_bound(s, key, k, from + 1);
    }
}

/// Sorting keeps the length, gives an ascending sequence and keeps every
/// element.
pub proof fn lemma_stable_sort<A>(s: Seq<A>, key: spec_fn(A) -> int)
    ensures
        stable_sort(s, key).len() == s.len(),
        ascending(stable_sort(s, key), key),
        stable_sort(s, key).to_multiset() == s.to_multiset(),
    decreases s.len(),
{
    broadcast use vstd::seq_lib::group_to_multiset_ensures;

    if s.len() > 0 {
        let placed = stable_sort(s.drop_last(), key);
        let last = s.last();
        lemma_stable_sort(s.drop_last(), key);
        lemma_upper_bound(placed, key, key(last), 0);
        let at = upper_bound(placed, key, key(last), 0);
        let out = placed.insert(at, last);
        assert forall|i: int, j: int| 0 <= i < j < out.len() implies key(out[i]) <= key(
            out[j],
        ) by {
            if j == at {
                assert(out[i] == placed[i]);
            } else if i == at {
                assert(out[j] == placed[j - 1]);
                assert(key(placed[at]) <= key(placed[j - 1])) by {
                    if at < j - 1 {
                    }
                }
            } else {
                let a = if i < at {
                    i
                } else {
                    i - 1
                };
                let b = if j < at {
                    j
                } else {
                    j - 1
                };
                assert(out[i] == placed[a]);
                assert(out[j] == placed[b]);
            }
        }
        assert(s =~= s.drop_last().push(last));
        vstd::seq_lib::to_multiset_insert(placed, at, last);
    }
}

/// Sorting the images under `f` is the image of sorting, where `f` keeps
/// keys.
pub proof fn lemma_stable_sort_map<A, B>(
    s: Seq<A>,
    f: spec_fn(A) -> B,
    key_a: spec_fn(A) -> int,
    key_b: spec_fn(B) -> int,
)
    requires
        forall|a: A| #[trigger] key_b(f(a)) == key_a(a),
    ensures
        stable_sort(s.map_values(f), key_b) == stable_sort(s, key_a).map_values(f),
    decreases s.len(),
{
    if s.len() == 0 {
        assert(s.map_values(f) =~= Seq::<B>::empty());
        assert(stable_sort(s, key_a).map_values(f) =~= Seq::<B>::empty());
    } else {
        let placed = stable_sort(s.drop_last(), key_a);
        lemma_stable_sort_map(s.drop_last(), f, key_a, key_b);
        assert(s.map_values(f).drop_last() =~= s.drop_last().map_values(f));
        assert(s.map_values(f).last() == f(s.last()));
        lemma_upper_bound_map(placed, f, key_a, key_b, key_a(s.last()), 0);
        lemma_upper_bound(placed, key_a, key_a(s.last()), 0);
        let at = upper_bound(placed, key_a, key_a(s.last()), 0);
        assert(placed.map_values(f).insert(at, f(s.last())) =~= placed.insert(
            at,
            s.last(),
        ).map_values(f));
    }
}

/// The bound among the images under `f` is the bound, where `f` keeps keys.
pub proof fn lemma_upper_bound_map<A, B>(
    s: Seq<A>,
    f: spec_fn(A) -> B,
    key_a: spec_fn(A) -> int,
    key_b: spec_fn(B) -> int,
    k: int,
    from: int,
)
    requires
        forall|a: A| #[trigger] key_b(f(a)) == key_a(a),
        0 <= from <= s.len(),
    ensures
        upper_bound(s.map_values(f), key_b, k, from) == upper_bound(s, key_a, k, from),
    decreases s.len() - from,
{
    if from < s.len() {
        assert(s.map_values(f)[from] == f(s[from]));
        if key_a(s[from]) <= k {
            lemma_upper_bound_map(s, f, key_a, key_b, k, from + 1);
        }
    }
}

/// The elements of `s` whose key is `k`, in their order.
pub open spec fn of_key<A>(s: Seq<A>, key: spec_fn(A) -> int, k: int) -> Seq<A>
    decreases s.len(),
{
    if s.len() == 0 {
        s
    } else if key(s.last()) == k {
        of_key(s.drop_last(), key, k).push(s.last())
    } else {
        of_key(s.drop_last(), key, k)
    }
}

/// What putting an element into a sequence does to the elements of one
/// key: nothing, if the element has another key; and if it has this key and
/// no element of this key stands behind the place, it comes last of them.
pub proof fn lemma_of_key_insert<A>(s: Seq<A>, key: spec_fn(A) -> int, k: int, at: int, x: A)
    requires
        0 <= at <= s.len(),
        key(x) == k ==> forall|i: int| at <= i < s.len() ==> key(#[trigger] s[i]) != k,
    ensures
        of_key(s.insert(at, x), key, k) == if key(x) == k {
            of_key(s, key, k).push(x)
        } else {
            of_key(s, key, k)
        },
    decreases s.len() - at,
{
    let put = s.insert(at, x);
    if at == s.len() {
        assert(put.drop_last() =~= s);
        assert(put.last() == x);
    } else {
        assert(put.drop_last() =~= s.drop_last().insert(at, x));
        assert(put.last() == s.last());
        lemma_of_key_insert(s.drop_last(), key, k, at, x);
        if key(x) == k {
            assert(key(s[s.len() - 1]) != k);
        }
    }
}

/// Sorting is stable: the elements of one key stand in the order in which
/// they stood.
pub proof fn lemma_stable_sort_keeps_order<A>(s: Seq<A>, key: spec_fn(A) -> int, k: int)
    ensures
        of_key(stable_sort(s, key), key, k) == of_key(s, key, k),
    decreases s.len(),
{
    if s.len() > 0 {
        let placed = stable_sort(s.drop_last(), key);
        let last = s.last();
        let at = upper_bound(placed, key, key(last), 0);
        lemma_stable_sort_keeps_order(s.drop_last(), key, k);
        lemma_stable_sort(s.drop_last(), key);
        lemma_upper_bound(placed, key, key(last), 0);
        if key(last) == k {
            assert forall|i: int| at <= i < placed.len() implies key(#[trigger] placed[i])
                != k by {
                if at < i {
                    assert(key(placed[at]) <= key(placed[i]));
                }
            }
        }
        lemma_of_key_insert(placed, key, k, at, last);
    }
}

} // verus!
