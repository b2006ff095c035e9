//! The pairwise merger: the streaming two-way merge of two sorted runs
//! into one, as keys and as raw record streams.
//!
//! While both runs still hold a current key the smaller one is emitted;
//! on a tie the key of the second run goes first. When one run is
//! exhausted the rest of the other is emitted verbatim. [`merge_spec`]
//! pins that choice exactly, tie-break included, and the executable
//! merge is proved to produce precisely that sequence.

use vstd::multiset::Multiset;
use vstd::prelude::*;

use crate::codec::{decoded, encoded, lemma_decoded_encoded};
use crate::codec::{decode_run, encode_run};
use crate::sorting::{lemma_cons_sorted, lemma_sorted_first_min, sorted};
use crate::SortError;

verus! {

broadcast use vstd::seq_lib::group_to_multiset_ensures;

/// The exact result of merging two runs: repeatedly take the strictly
/// smaller head, and on a tie the head of the second run.
pub open spec fn merge_spec(a: Seq<u64>, b: Seq<u64>) -> Seq<u64>
    decreases a.len() + b.len(),
{
    if a.len() == 0 {
        b
    } else if b.len() == 0 {
        a
    } else if a[0] < b[0] {
        seq![a[0]] + merge_spec(a.skip(1), b)
    } else {
        seq![b[0]] + merge_spec(a, b.skip(1))
    }
}

/// A merge emits every key of both runs, each exactly as often as the
/// two runs hold it together, whatever order the runs were in.
pub proof fn lemma_merge_spec_multiset(a: Seq<u64>, b: Seq<u64>)
    ensures
        merge_spec(a, b).to_multiset() == a.to_multiset().add(b.to_multiset()),
        merge_spec(a, b).len() == a.len() + b.len(),
    decreases a.len() + b.len(),
{
    if a.len() == 0 {
        assert(merge_spec(a, b).to_multiset() =~= a.to_multiset().add(b.to_multiset()));
    } else if b.len() == 0 {
        assert(merge_spec(a, b).to_multiset() =~= a.to_multiset().add(b.to_multiset()));
    } else if a[0] < b[0] {
        lemma_merge_spec_multiset(a.skip(1), b);
        vstd::seq_lib::lemma_multiset_commutative(seq![a[0]], merge_spec(a.skip(1), b));
        assert(seq![a[0]] =~= Seq::<u64>::empty().push(a[0]));
        assert(seq![a[0]].to_multiset() =~= Multiset::<u64>::empty().insert(a[0]));
        assert(a =~= seq![a[0]] + a.skip(1));
        vstd::seq_lib::lemma_multiset_commutative(seq![a[0]], a.skip(1));
        assert(merge_spec(a, b).to_multiset() =~= a.to_multiset().add(b.to_multiset()));
    } else {
        lemma_merge_spec_multiset(a, b.skip(1));
        vstd::seq_lib::lemma_multiset_commutative(seq![b[0]], merge_spec(a, b.skip(1)));
        assert(seq![b[0]] =~= Seq::<u64>::empty().push(b[0]));
        assert(seq![b[0]].to_multiset() =~= Multiset::<u64>::empty().insert(b[0]));
        assert(b =~= seq![b[0]] + b.skip(1));
        vstd::seq_lib::lemma_multiset_commutative(seq![b[0]], b.skip(1));
        assert(merge_spec(a, b).to_multiset() =~= a.to_multiset().add(b.to_multiset()));
    }
}

/// Merging two sorted runs gives a sorted run.
pub proof fn lemma_merge_spec_sorted(a: Seq<u64>, b: Seq<u64>)
    requires
        sorted(a),
        sorted(b),
    ensures
        sorted(merge_spec(a, b)),
    decreases a.len() + b.len(),
{
    if a.len() == 0 || b.len() == 0 {
    } else {
        let ta = a.skip(1);
        let tb = b.skip(1);
        assert(sorted(ta)) by {
            assert(forall|i: int, j: int|
                0 <= i < j < ta.len() ==> ta[i] == a[i + 1] && ta[j] == a[j + 1]);
        }
        assert(sorted(tb)) by {
            assert(forall|i: int, j: int|
                0 <= i < j < tb.len() ==> tb[i] == b[i + 1] && tb[j] == b[j + 1]);
        }
        if a[0] < b[0] {
            lemma_merge_spec_sorted(ta, b);
            let rest = merge_spec(ta, b);
            lemma_merge_spec_multiset(ta, b);
            assert forall|i: int| 0 <= i < rest.len() implies a[0] <= rest[i] by {
                assert(rest.contains(rest[i]));
                assert(rest.to_multiset().count(rest[i]) > 0);
                if ta.to_multiset().count(rest[i]) > 0 {
                    assert(ta.contains(rest[i]));
                    lemma_sorted_first_min(ta, rest[i]);
                    assert(a[0] <= a[1]);
                } else {
                    assert(b.to_multiset().count(rest[i]) > 0);
                    assert(b.contains(rest[i]));
                    lemma_sorted_first_min(b, rest[i]);
                }
            }
            lemma_cons_sorted(a[0], rest);
        } else {
            lemma_merge_spec_sorted(a, tb);
            let rest = merge_spec(a, tb);
            lemma_merge_spec_multiset(a, tb);
            assert forall|i: int| 0 <= i < rest.len() implies b[0] <= rest[i] by {
                assert(rest.contains(rest[i]));
                assert(rest.to_multiset().count(rest[i]) > 0);
                if a.to_multiset().count(rest[i]) > 0 {
                    assert(a.contains(rest[i]));
                    lemma_sorted_first_min(a, rest[i]);
                } else {
                    assert(tb.to_multiset().count(rest[i]) > 0);
                    assert(tb.contains(rest[i]));
                    lemma_sorted_first_min(tb, rest[i]);
                    assert(b[0] <= b[1]);
                }
            }
            lemma_cons_sorted(b[0], rest);
        }
    }
}

/// Merges two runs of keys in one linear pass. The result is exactly
/// [`merge_spec`] of the two runs: every key of both, the smaller head
/// first, ties from the second run first; for sorted inputs the result
/// is sorted.
pub fn merge_runs(a: &Vec<u64>, b: &Vec<u64>) -> (r: Vec<u64>)
    ensures
        r@ == merge_spec(a@, b@),
        r@.len() == a@.len() + b@.len(),
        r@.to_multiset() == a@.to_multiset().add(b@.to_multiset()),
        sorted(a@) && sorted(b@) ==> sorted(r@),
{
    let mut out: Vec<u64> = Vec::new();
    let mut i: usize = 0;
    let mut j: usize = 0;
    proof {
        assert(a@.skip(0) =~= a@);
        assert(b@.skip(0) =~= b@);
    }
    while i < a.len() && j < b.len()
        invariant
            i <= a@.len(),
            j <= b@.len(),
            merge_spec(a@, b@) == out@ + merge_spec(a@.skip(i as int), b@.skip(j as int)),
        decreases a@.len() - i + b@.len() - j,
    {
        let ghost ra = a@.skip(i as int);
        let ghost rb = b@.skip(j as int);
        proof {
            assert(ra[0] == a@[i as int]);
            assert(rb[0] == b@[j as int]);
        }
        if a[i] < b[j] {
            proof {
                assert(ra.skip(1) =~= a@.skip(i as int + 1));
                assert(merge_spec(ra, rb) == seq![ra[0]] + merge_spec(
                    a@.skip(i as int + 1),
                    rb,
                ));
                assert(out@ + merge_spec(ra, rb) =~= out@.push(a@[i as int]) + merge_spec(
                    a@.skip(i as int + 1),
                    rb,
                ));
            }
            out.push(a[i]);
            i = i + 1;
        } else {
            proof {
                assert(rb.skip(1) =~= b@.skip(j as int + 1));
                assert(merge_spec(ra, rb) == seq![rb[0]] + merge_spec(
                    ra,
                    b@.skip(j as int + 1),
                ));
                assert(out@ + merge_spec(ra, rb) =~= out@.push(b@[j as int]) + merge_spec(
                    ra,
                    b@.skip(j as int + 1),
                ));
            }
            out.push(b[j]);
            j = j + 1;
        }
    }
    while i < a.len()
        invariant
            i <= a@.len(),
            i == a@.len() || j == b@.len(),
            merge_spec(a@, b@) == out@ + merge_spec(a@.skip(i as int), b@.skip(j as int)),
        decreases a@.len() - i,
    {
        let ghost ra = a@.skip(i as int);
        proof {
            assert(b@.skip(j as int) =~= Seq::<u64>::empty());
            assert(ra[0] == a@[i as int]);
            assert(merge_spec(ra, b@.skip(j as int)) == ra);
            assert(ra =~= seq![ra[0]] + a@.skip(i as int + 1));
            assert(merge_spec(a@.skip(i as int + 1), b@.skip(j as int)) == a@.skip(i as int + 1));
            assert(out@ + ra =~= out@.push(a@[i as int]) + a@.skip(i as int + 1));
        }
        out.push(a[i]);
        i = i + 1;
    }
    while j < b.len()
        invariant
            i == a@.len(),
            j <= b@.len(),
            merge_spec(a@, b@) == out@ + merge_spec(a@.skip(i as int), b@.skip(j as int)),
        decreases b@.len() - j,
    {
        let ghost rb = b@.skip(j as int);
        proof {
            assert(a@.skip(i as int) =~= Seq::<u64>::empty());
            assert(rb[0] == b@[j as int]);
            assert(merge_spec(a@.skip(i as int), rb) == rb);
            assert(rb =~= seq![rb[0]] + b@.skip(j as int + 1));
            assert(merge_spec(a@.skip(i as int), b@.skip(j as int + 1)) == b@.skip(j as int + 1));
            assert(out@ + rb =~= out@.push(b@[j as int]) + b@.skip(j as int + 1));
        }
        out.push(b[j]);
        j = j + 1;
    }
    proof {
        assert(a@.skip(i as int) =~= Seq::<u64>::empty());
        assert(b@.skip(j as int) =~= Seq::<u64>::empty());
        assert(merge_spec(a@.skip(i as int), b@.skip(j as int)) == Seq::<u64>::empty());
        assert(out@ + Seq::<u64>::empty() =~= out@);
        lemma_merge_spec_multiset(a@, b@);
        if sorted(a@) && sorted(b@) {
            lemma_merge_spec_sorted(a@, b@);
        }
    }
    out
}

/// Merges two runs given as raw record streams, in one pass, producing
/// the record stream of the merged run. A stream whose length is not a
/// multiple of the record width is rejected as
/// [`SortError::MalformedRunError`]; nothing is silently truncated.
pub fn merge_encoded(a: &Vec<u8>, b: &Vec<u8>) -> (r: Result<Vec<u8>, SortError>)
    ensures
        match r {
            Ok(m) => a@.len() % 8 == 0 && b@.len() % 8 == 0 && m@ == encoded(
                merge_spec(decoded(a@), decoded(b@)),
            ) && decoded(m@) == merge_spec(decoded(a@), decoded(b@)) && (sorted(decoded(a@))
                && sorted(decoded(b@)) ==> sorted(decoded(m@))),
            Err(e) => e == SortError::MalformedRunError && (a@.len() % 8 != 0 || b@.len() % 8
                != 0),
        },
{
    let ka = match decode_run(a) {
        Ok(ks) => ks,
        Err(e) => {
            return Err(e);
        },
    };
    let kb = match decode_run(b) {
        Ok(ks) => ks,
        Err(e) => {
            return Err(e);
        },
    };
    let merged = merge_runs(&ka, &kb);
    let bytes = encode_run(&merged);
    proof {
        lemma_decoded_encoded(merged@);
    }
    Ok(bytes)
}

} // verus!
