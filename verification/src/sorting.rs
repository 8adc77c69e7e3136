//! A stable sort by an integer key, as a mathematical function on sequences
//! and as an in-place sort of a vector.

use vstd::prelude::*;

verus! {

/// A value that is ordered by a key it carries.
pub trait SortKey: Copy {
    /// The key of the value.
    spec fn key(self) -> int;

    /// The key of the value.
    fn sort_key(&self) -> (k: usize)
        ensures
            k == self.key(),
    ;
}

/// The key of a `SortKey` value as a function.
pub open spec fn key_fn<T: SortKey>() -> spec_fn(T) -> int {
    |x: T| x.key()
}

/// True when the keys of `s` never decrease.
pub open spec fn sorted_by<A>(s: Seq<A>, key: spec_fn(A) -> int) -> bool {
    forall|i: int, j: int| 0 <= i <= j < s.len() ==> key(#[trigger] s[i]) <= key(#[trigger] s[j])
}

/// `sorted` with `x` put after the last element whose key is not greater
/// than the key of `x`.
pub open spec fn insert_sorted<A>(sorted: Seq<A>, x: A, key: spec_fn(A) -> int) -> Seq<A>
    decreases sorted.len(),
{
    if sorted.len() == 0 {
        seq![x]
    } else if key(sorted.last()) <= key(x) {
        sorted.push(x)
    } else {
        insert_sorted(sorted.drop_last(), x, key).push(sorted.last())
    }
}

/// The elements of `s` in the order of their keys; elements with equal keys
/// keep the order they have in `s`.
pub open spec fn stable_sort<A>(s: Seq<A>, key: spec_fn(A) -> int) -> Seq<A>
    decreases s.len(),
{
    if s.len() == 0 {
        s
    } else {
        insert_sorted(stable_sort(s.drop_last(), key), s.last(), key)
    }
}

/// Where `insert_sorted` puts the new element: at `j`, when every element from
/// `j` on has a greater key and the element before `j`, if any, has not.
pub proof fn lemma_insert_at<A>(sorted: Seq<A>, x: A, key: spec_fn(A) -> int, j: int)
    requires
        0 <= j <= sorted.len(),
        forall|k: int| j <= k < sorted.len() ==> key(#[trigger] sorted[k]) > key(x),
        j > 0 ==> key(sorted[j - 1]) <= key(x),
    ensures
        insert_sorted(sorted, x, key) == sorted.take(j).push(x) + sorted.skip(j),
    decreases sorted.len(),
{
    if sorted.len() == 0 {
        assert(sorted.take(j).push(x) + sorted.skip(j) =~= seq![x]);
    } else if j == sorted.len() {
        assert(sorted.take(j).push(x) + sorted.skip(j) =~= sorted.push(x));
    } else {
        let rest = sorted.drop_last();
        assert(key(sorted[sorted.len() - 1]) > key(x));
        assert forall|k: int| j <= k < rest.len() implies key(#[trigger] rest[k]) > key(x) by {
            assert(rest[k] == sorted[k]);
        }
        if j > 0 {
            assert(rest[j - 1] == sorted[j - 1]);
        }
        lemma_insert_at(rest, x, key, j);
        assert((rest.take(j).push(x) + rest.skip(j)).push(sorted.last()) =~= sorted.take(j).push(
            x,
        ) + sorted.skip(j));
    }
}

/// Inserting into a sorted sequence gives a sorted sequence with the same
/// elements and the new one.
pub proof fn lemma_insert_sorted<A>(sorted: Seq<A>, x: A, key: spec_fn(A) -> int)
    requires
        sorted_by(sorted, key),
    ensures
        sorted_by(insert_sorted(sorted, x, key), key),
        insert_sorted(sorted, x, key).len() == sorted.len() + 1,
        insert_sorted(sorted, x, key).to_multiset() == sorted.to_multiset().insert(x),
    decreases sorted.len(),
{
    broadcast use vstd::seq_lib::group_to_multiset_ensures;

    let out = insert_sorted(sorted, x, key);
    if sorted.len() == 0 {
        assert(out =~= sorted.push(x));
    } else if key(sorted.last()) <= key(x) {
        assert forall|i: int, j: int| 0 <= i <= j < out.len() implies key(#[trigger] out[i])
            <= key(#[trigger] out[j]) by {
            if j < sorted.len() {
                assert(out[i] == sorted[i] && out[j] == sorted[j]);
            } else if i < sorted.len() {
                assert(out[i] == sorted[i]);
                assert(key(sorted[i]) <= key(sorted[sorted.len() - 1]));
            }
        }
    } else {
        let rest = sorted.drop_last();
        let last = sorted.last();
        assert forall|i: int, j: int| 0 <= i <= j < rest.len() implies key(#[trigger] rest[i])
            <= key(#[trigger] rest[j]) by {
            assert(rest[i] == sorted[i] && rest[j] == sorted[j]);
        }
        lemma_insert_sorted(rest, x, key);
        let mid = insert_sorted(rest, x, key);
        assert(sorted =~= rest.push(last));
        assert(out.to_multiset() =~= sorted.to_multiset().insert(x));
        assert forall|i: int| 0 <= i < mid.len() implies key(#[trigger] mid[i]) <= key(last) by {
            assert(mid.to_multiset().count(mid[i]) > 0);
            if mid[i] != x {
                assert(rest.to_multiset().count(mid[i]) > 0);
                assert(rest.contains(mid[i]));
                let k = choose|k: int| 0 <= k < rest.len() && rest[k] == mid[i];
                assert(sorted[k] == mid[i]);
                assert(key(sorted[k]) <= key(sorted[sorted.len() - 1]));
            }
        }
        assert forall|i: int, j: int| 0 <= i <= j < out.len() implies key(#[trigger] out[i])
            <= key(#[trigger] out[j]) by {
            if j < mid.len() {
                assert(out[i] == mid[i] && out[j] == mid[j]);
            } else if i < mid.len() {
                assert(out[i] == mid[i]);
            }
        }
    }
}

/// The sorted sequence is sorted and holds the same elements as often as the
/// sequence it was made from.
pub proof fn lemma_stable_sort<A>(s: Seq<A>, key: spec_fn(A) -> int)
    ensures
        sorted_by(stable_sort(s, key), key),
        stable_sort(s, key).len() == s.len(),
        stable_sort(s, key).to_multiset() == s.to_multiset(),
    decreases s.len(),
{
    broadcast use vstd::seq_lib::group_to_multiset_ensures;

    if s.len() > 0 {
        lemma_stable_sort(s.drop_last(), key);
        lemma_insert_sorted(stable_sort(s.drop_last(), key), s.last(), key);
        assert(s =~= s.drop_last().push(s.last()));
    }
}

/// Every element of the sorted sequence is an element of the sequence it was
/// made from, and the other way round.
pub proof fn lemma_stable_sort_same_elements<A>(s: Seq<A>, key: spec_fn(A) -> int)
    ensures
        forall|i: int|
            0 <= i < stable_sort(s, key).len() ==> s.contains(#[trigger] stable_sort(s, key)[i]),
        forall|i: int| 0 <= i < s.len() ==> stable_sort(s, key).contains(#[trigger] s[i]),
{
    broadcast use vstd::seq_lib::group_to_multiset_ensures;

    lemma_stable_sort(s, key);
    let out = stable_sort(s, key);
    assert forall|i: int| 0 <= i < out.len() implies s.contains(#[trigger] out[i]) by {
        assert(out.to_multiset().count(out[i]) > 0);
    }
    assert forall|i: int| 0 <= i < s.len() implies out.contains(#[trigger] s[i]) by {
        assert(s.to_multiset().count(s[i]) > 0);
    }
}

/// Sorting a sorted sequence changes nothing.
pub proof fn lemma_stable_sort_of_sorted<A>(s: Seq<A>, key: spec_fn(A) -> int)
    requires
        sorted_by(s, key),
    ensures
        stable_sort(s, key) == s,
    decreases s.len(),
{
    if s.len() > 0 {
        let rest = s.drop_last();
        assert forall|i: int, j: int| 0 <= i <= j < rest.len() implies key(#[trigger] rest[i])
            <= key(#[trigger] rest[j]) by {
            assert(rest[i] == s[i] && rest[j] == s[j]);
        }
        lemma_stable_sort_of_sorted(rest, key);
        if rest.len() > 0 {
            assert(rest.last() == s[s.len() - 2]);
            assert(key(s[s.len() - 2]) <= key(s[s.len() - 1]));
        }
        assert(rest.push(s.last()) =~= s);
    }
}

/// Sorting commutes with a map that keeps the keys.
pub proof fn lemma_stable_sort_map<A, B>(
    s: Seq<A>,
    f: spec_fn(A) -> B,
    ka: spec_fn(A) -> int,
    kb: spec_fn(B) -> int,
)
    requires
        forall|x: A| #[trigger] ka(x) == kb(f(x)),
    ensures
        stable_sort(s, ka).map_values(f) == stable_sort(s.map_values(f), kb),
    decreases s.len(),
{
    if s.len() == 0 {
        assert(stable_sort(s, ka).map_values(f) =~= stable_sort(s.map_values(f), kb));
    } else {
        lemma_stable_sort_map(s.drop_last(), f, ka, kb);
        assert(s.map_values(f).drop_last() =~= s.drop_last().map_values(f));
        lemma_insert_sorted_map(stable_sort(s.drop_last(), ka), s.last(), f, ka, kb);
    }
}

/// Inserting commutes with a map that keeps the keys.
pub proof fn lemma_insert_sorted_map<A, B>(
    sorted: Seq<A>,
    x: A,
    f: spec_fn(A) -> B,
    ka: spec_fn(A) -> int,
    kb: spec_fn(B) -> int,
)
    requires
        forall|x: A| #[trigger] ka(x) == kb(f(x)),
    ensures
        insert_sorted(sorted, x, ka).map_values(f) == insert_sorted(
            sorted.map_values(f),
            f(x),
            kb,
        ),
    decreases sorted.len(),
{
    let m = sorted.map_values(f);
    if sorted.len() == 0 {
        assert(insert_sorted(sorted, x, ka).map_values(f) =~= seq![f(x)]);
    } else {
        assert(ka(sorted.last()) == kb(m.last()));
        assert(ka(x) == kb(f(x)));
        if ka(sorted.last()) <= ka(x) {
            assert(sorted.push(x).map_values(f) =~= m.push(f(x)));
        } else {
            lemma_insert_sorted_map(sorted.drop_last(), x, f, ka, kb);
            assert(m.drop_last() =~= sorted.drop_last().map_values(f));
            assert(insert_sorted(sorted.drop_last(), x, ka).push(sorted.last()).map_values(f)
                =~= insert_sorted(sorted.drop_last(), x, ka).map_values(f).push(m.last()));
        }
    }
}

/// Sorts `v` by key. Elements with equal keys keep their order.
#[verifier::rlimit(50)]
pub fn sort_stable<T: SortKey>(v: &mut Vec<T>)
    ensures
        final(v)@ == stable_sort(old(v)@, key_fn::<T>()),
{
    let n = v.len();
    let ghost key = key_fn::<T>();
    let ghost orig = v@;
    let mut i: usize = 0;
    proof {
        assert(orig.take(0) =~= Seq::<T>::empty());
    }
    while i < n
        invariant
            i <= n,
            n == orig.len(),
            v@.len() == n,
            key == key_fn::<T>(),
            v@.take(i as int) == stable_sort(orig.take(i as int), key),
            v@.skip(i as int) == orig.skip(i as int),
        decreases n - i,
    {
        let x = v[i];
        let ghost pre = v@.take(i as int);
        let ghost tail = v@.skip(i as int + 1);
        proof {
            assert(x == orig.skip(i as int)[0]);
            assert(tail =~= orig.skip(i as int + 1)) by {
                assert forall|k: int| 0 <= k < tail.len() implies tail[k] == orig.skip(
                    i as int + 1,
                )[k] by {
                    assert(v@.skip(i as int)[k + 1] == orig.skip(i as int)[k + 1]);
                }
            }
        }
        let mut j: usize = i;
        while j > 0 && v[j - 1].sort_key() > x.sort_key()
            invariant
                j <= i < n,
                v@.len() == n,
                pre.len() == i,
                key == key_fn::<T>(),
                v@.take(j as int) == pre.take(j as int),
                v@.subrange(j as int + 1, i as int + 1) == pre.skip(j as int),
                v@.skip(i as int + 1) == tail,
                forall|k: int| j <= k < pre.len() ==> key(#[trigger] pre[k]) > key(x),
            decreases j,
        {
            let y = v[j - 1];
            proof {
                assert(y == v@.take(j as int)[j - 1]);
                assert(y == pre[j - 1]);
            }
            let ghost before = v@;
            v.set(j, y);
            j -= 1;
            proof {
                assert(v@.take(j as int) =~= pre.take(j as int)) by {
                    assert(before.take(j as int + 1).take(j as int) =~= before.take(j as int));
                }
                assert(v@.subrange(j as int + 1, i as int + 1) =~= pre.skip(j as int)) by {
                    assert forall|k: int| 0 <= k < i - j implies v@.subrange(
                        j as int + 1,
                        i as int + 1,
                    )[k] == pre.skip(j as int)[k] by {
                        if k > 0 {
                            assert(before.subrange(j as int + 2, i as int + 1)[k - 1] == pre.skip(
                                j as int + 1,
                            )[k - 1]);
                        }
                    }
                }
                assert(v@.skip(i as int + 1) =~= tail);
            }
        }
        let ghost before = v@;
        v.set(j, x);
        proof {
            if j > 0 {
                assert(before.take(j as int)[j - 1] == pre[j - 1]);
                assert(key(pre[j - 1]) <= key(x));
            }
            lemma_insert_at(pre, x, key, j as int);
            let merged = pre.take(j as int).push(x) + pre.skip(j as int);
            assert(v@.take(i as int + 1) =~= merged) by {
                assert forall|k: int| 0 <= k < i + 1 implies v@.take(i as int + 1)[k]
                    == merged[k] by {
                    if k < j {
                        assert(before.take(j as int)[k] == pre.take(j as int)[k]);
                    } else if k > j {
                        assert(before.subrange(j as int + 1, i as int + 1)[k - j - 1] == pre.skip(
                            j as int,
                        )[k - j - 1]);
                    }
                }
            }
            assert(orig.take(i as int + 1).drop_last() =~= orig.take(i as int));
            assert(orig.take(i as int + 1).last() == x);
            assert(v@.skip(i as int + 1) =~= orig.skip(i as int + 1));
        }
        i += 1;
    }
    proof {
        assert(v@.take(n as int) =~= v@);
        assert(orig.take(n as int) =~= orig);
    }
}

} // verus!
