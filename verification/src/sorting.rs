//! Ordering of key sequences: what "sorted" means, the canonical sorted
//! permutation of a sequence, and the fact that a sorted permutation is
//! unique. The last fact is what makes the engine's answer independent of
//! how the input was cut into runs and in which order runs were merged.

use vstd::multiset::Multiset;
use vstd::prelude::*;

verus! {

broadcast use vstd::seq_lib::group_to_multiset_ensures;

/// A sequence of keys in non-descending order.
pub open spec fn sorted(s: Seq<u64>) -> bool {
    forall|i: int, j: int| 0 <= i < j < s.len() ==> s[i] <= s[j]
}

/// `x` placed at its place in an already sorted sequence.
pub open spec fn insert_sorted(x: u64, s: Seq<u64>) -> Seq<u64>
    decreases s.len(),
{
    if s.len() == 0 {
        seq![x]
    } else if x <= s[0] {
        seq![x] + s
    } else {
        seq![s[0]] + insert_sorted(x, s.skip(1))
    }
}

/// The canonical sorted permutation of a sequence of keys: the unique
/// non-descending reordering. This is the mathematical answer that the
/// whole engine is required to produce.
pub open spec fn sort_spec(s: Seq<u64>) -> Seq<u64>
    decreases s.len(),
{
    if s.len() == 0 {
        Seq::empty()
    } else {
        insert_sorted(s[0], sort_spec(s.skip(1)))
    }
}

/// A sorted sequence is bounded below by its first element, and any
/// element it contains bounds the first element from above.
pub proof fn lemma_sorted_first_min(s: Seq<u64>, y: u64)
    requires
        sorted(s),
        s.contains(y),
    ensures
        s.len() > 0,
        s[0] <= y,
{
    let i = choose|i: int| 0 <= i < s.len() && s[i] == y;
    assert(s[0] <= s[i]);
}

/// Prepending a lower bound to a sorted sequence keeps it sorted.
pub proof fn lemma_cons_sorted(h: u64, s: Seq<u64>)
    requires
        sorted(s),
        forall|i: int| 0 <= i < s.len() ==> h <= s[i],
    ensures
        sorted(seq![h] + s),
{
    let r = seq![h] + s;
    assert forall|i: int, j: int| 0 <= i < j < r.len() implies r[i] <= r[j] by {
        if i == 0 {
            assert(r[j] == s[j - 1]);
        } else {
            assert(r[i] == s[i - 1] && r[j] == s[j - 1]);
        }
    }
}

/// Inserting into a sorted sequence keeps it sorted, adds exactly the
/// inserted key to the contents, and grows the length by one.
pub proof fn lemma_insert_sorted(x: u64, s: Seq<u64>)
    requires
        sorted(s),
    ensures
        sorted(insert_sorted(x, s)),
        insert_sorted(x, s).to_multiset() == s.to_multiset().insert(x),
        insert_sorted(x, s).len() == s.len() + 1,
    decreases s.len(),
{
    if s.len() == 0 {
        assert(seq![x] =~= Seq::<u64>::empty().push(x));
        assert(insert_sorted(x, s).to_multiset() =~= s.to_multiset().insert(x));
    } else if x <= s[0] {
        let r = seq![x] + s;
        assert forall|i: int| 0 <= i < s.len() implies x <= s[i] by {
            if i > 0 {
                assert(s[0] <= s[i]);
            }
        }
        lemma_cons_sorted(x, s);
        assert(r.to_multiset() == s.to_multiset().insert(x)) by {
            vstd::seq_lib::lemma_multiset_commutative(seq![x], s);
            assert(seq![x] =~= Seq::<u64>::empty().push(x));
            assert(seq![x].to_multiset() =~= Multiset::<u64>::empty().insert(x));
            assert(Multiset::<u64>::empty().insert(x).add(s.to_multiset()) =~= s.to_multiset()
                .insert(x));
        }
    } else {
        let tail = s.skip(1);
        assert(sorted(tail)) by {
            assert(forall|i: int, j: int|
                0 <= i < j < tail.len() ==> tail[i] == s[i + 1] && tail[j] == s[j + 1]);
        }
        lemma_insert_sorted(x, tail);
        let rest = insert_sorted(x, tail);
        assert forall|i: int| 0 <= i < rest.len() implies s[0] <= rest[i] by {
            assert(rest.to_multiset().count(rest[i]) > 0);
            if rest[i] != x {
                assert(tail.to_multiset().count(rest[i]) > 0);
                assert(tail.contains(rest[i]));
                lemma_sorted_first_min(tail, rest[i]);
                assert(s[0] <= s[1]);
            }
        }
        lemma_cons_sorted(s[0], rest);
        assert(insert_sorted(x, s).to_multiset() == s.to_multiset().insert(x)) by {
            vstd::seq_lib::lemma_multiset_commutative(seq![s[0]], rest);
            assert(seq![s[0]] =~= Seq::<u64>::empty().push(s[0]));
            assert(seq![s[0]].to_multiset() =~= Multiset::<u64>::empty().insert(s[0]));
            assert(s =~= seq![s[0]] + tail);
            vstd::seq_lib::lemma_multiset_commutative(seq![s[0]], tail);
            assert(insert_sorted(x, s).to_multiset() =~= s.to_multiset().insert(x));
        }
    }
}

/// The canonical sorted permutation is sorted and is a permutation: it
/// holds exactly the keys of the input, with their multiplicities.
pub proof fn lemma_sort_spec_ensures(s: Seq<u64>)
    ensures
        sorted(sort_spec(s)),
        sort_spec(s).to_multiset() == s.to_multiset(),
        sort_spec(s).len() == s.len(),
    decreases s.len(),
{
    if s.len() == 0 {
    } else {
        let tail = s.skip(1);
        lemma_sort_spec_ensures(tail);
        lemma_insert_sorted(s[0], sort_spec(tail));
        assert(s =~= seq![s[0]] + tail);
        vstd::seq_lib::lemma_multiset_commutative(seq![s[0]], tail);
        assert(seq![s[0]] =~= Seq::<u64>::empty().push(s[0]));
        assert(seq![s[0]].to_multiset() =~= Multiset::<u64>::empty().insert(s[0]));
        assert(sort_spec(s).to_multiset() =~= s.to_multiset());
    }
}

/// There is only one sorted arrangement of a given collection of keys:
/// two sorted sequences with the same contents are equal, element by
/// element. Hence any correctly merged result is the same, however the
/// input was chunked and in whatever order the runs were combined.
pub proof fn lemma_sorted_unique(a: Seq<u64>, b: Seq<u64>)
    requires
        sorted(a),
        sorted(b),
        a.to_multiset() == b.to_multiset(),
    ensures
        a == b,
    decreases a.len(),
{
    assert(a.len() == a.to_multiset().len());
    assert(b.len() == b.to_multiset().len());
    if a.len() == 0 {
        assert(a =~= b);
    } else {
        assert(a.contains(a[0]));
        assert(b.to_multiset().count(a[0]) > 0);
        assert(b.contains(a[0]));
        lemma_sorted_first_min(b, a[0]);
        assert(b.contains(b[0]));
        assert(a.to_multiset().count(b[0]) > 0);
        assert(a.contains(b[0]));
        lemma_sorted_first_min(a, b[0]);
        assert(a[0] == b[0]);
        let ta = a.skip(1);
        let tb = b.skip(1);
        assert(ta =~= a.remove(0));
        assert(tb =~= b.remove(0));
        assert(ta.to_multiset() == a.to_multiset().remove(a[0]));
        assert(tb.to_multiset() == b.to_multiset().remove(b[0]));
        assert(sorted(ta)) by {
            assert(forall|i: int, j: int|
                0 <= i < j < ta.len() ==> ta[i] == a[i + 1] && ta[j] == a[j + 1]);
        }
        assert(sorted(tb)) by {
            assert(forall|i: int, j: int|
                0 <= i < j < tb.len() ==> tb[i] == b[i + 1] && tb[j] == b[j + 1]);
        }
        lemma_sorted_unique(ta, tb);
        assert forall|i: int| 0 <= i < a.len() implies a[i] == b[i] by {
            if i > 0 {
                assert(ta[i - 1] == a[i]);
                assert(tb[i - 1] == b[i]);
                assert(ta[i - 1] == tb[i - 1]);
            }
        }
        assert(a =~= b);
    }
}

/// A sorted permutation of `s` is the canonical one.
pub proof fn lemma_sorted_perm_is_sort_spec(s: Seq<u64>, r: Seq<u64>)
    requires
        sorted(r),
        r.to_multiset() == s.to_multiset(),
    ensures
        r == sort_spec(s),
{
    lemma_sort_spec_ensures(s);
    lemma_sorted_unique(r, sort_spec(s));
}

/// Sorting is idempotent: an already sorted sequence is its own canonical
/// sorted permutation, so re-sorting sorted output reproduces it exactly.
pub proof fn lemma_sort_idempotent(s: Seq<u64>)
    ensures
        sorted(s) ==> sort_spec(s) == s,
        sort_spec(sort_spec(s)) == sort_spec(s),
{
    lemma_sort_spec_ensures(s);
    if sorted(s) {
        lemma_sorted_perm_is_sort_spec(s, s);
    }
    lemma_sorted_perm_is_sort_spec(sort_spec(s), sort_spec(s));
}

/// Sorts a run of keys ascending by total order: split in half, sort
/// both halves, merge. The result is exactly the canonical sorted
/// permutation of the input.
pub fn sort_run(v: Vec<u64>) -> (r: Vec<u64>)
    ensures
        r@ == sort_spec(v@),
        sorted(r@),
        r@.to_multiset() == v@.to_multiset(),
        r@.len() == v@.len(),
    decreases v@.len(),
{
    let ghost orig = v@;
    if v.len() <= 1 {
        proof {
            lemma_sorted_perm_is_sort_spec(v@, v@);
        }
        return v;
    }
    let mut left = v;
    let mid = left.len() / 2;
    let right = left.split_off(mid);
    proof {
        assert(orig =~= left@ + right@);
        vstd::seq_lib::lemma_multiset_commutative(left@, right@);
    }
    let ls = sort_run(left);
    let rs = sort_run(right);
    let r = crate::merge::merge_runs(&ls, &rs);
    proof {
        lemma_sorted_perm_is_sort_spec(orig, r@);
    }
    r
}

/// Reports whether a run of keys is in non-descending order.
pub fn is_sorted_run(v: &Vec<u64>) -> (r: bool)
    ensures
        r == sorted(v@),
{
    let mut i: usize = 1;
    if v.len() < 2 {
        return true;
    }
    while i < v.len()
        invariant
            1 <= i <= v@.len(),
            forall|k: int| 0 <= k < i - 1 ==> #[trigger] v@[k] <= v@[k + 1],
        decreases v@.len() - i,
    {
        if v[i - 1] > v[i] {
            return false;
        }
        i = i + 1;
    }
    proof {
        lemma_adjacent_sorted(v@);
    }
    true
}

/// Pairwise adjacent order implies full sortedness.
pub proof fn lemma_adjacent_sorted(s: Seq<u64>)
    requires
        forall|k: int| 0 <= k < s.len() - 1 ==> #[trigger] s[k] <= s[k + 1],
    ensures
        sorted(s),
{
    assert forall|i: int, j: int| 0 <= i < j < s.len() implies s[i] <= s[j] by {
        lemma_le_span(s, i, j);
    }
}

proof fn lemma_le_span(s: Seq<u64>, i: int, j: int)
    requires
        forall|k: int| 0 <= k < s.len() - 1 ==> #[trigger] s[k] <= s[k + 1],
        0 <= i <= j < s.len(),
    ensures
        s[i] <= s[j],
    decreases j - i,
{
    if i < j {
        lemma_le_span(s, i, j - 1);
        assert(s[j - 1] <= s[j]);
    }
}

} // verus!
