//! The whole engine over in-memory data, and the compute half of the
//! exporter: what the pipeline does to the values themselves, stated
//! and proved end to end. The unverified shell repeats only the file
//! plumbing around these functions.

use vstd::prelude::*;

use crate::chunker::divide;
use crate::codec::{bits_of_key, decode_run, decoded, spec_bits_of_key};
use crate::scheduler::reduce;
use crate::sorting::{lemma_sorted_perm_is_sort_spec, sort_spec, sorted};
use crate::SortError;

verus! {

broadcast use vstd::seq_lib::group_to_multiset_ensures;

/// Sorts a sequence of keys the way the external engine does: cut into
/// capacity-bounded sorted runs, then merge runs two at a time, oldest
/// first, until one remains. The result is the canonical sorted
/// permutation of the input: the same keys, with multiplicities, in
/// non-descending order. An empty input gives an empty output, not an
/// error.
pub fn external_sort(values: &Vec<u64>, capacity: usize) -> (r: Vec<u64>)
    requires
        capacity >= 1,
    ensures
        r@ == sort_spec(values@),
        sorted(r@),
        r@.to_multiset() == values@.to_multiset(),
        r@.len() == values@.len(),
{
    let runs = divide(values, capacity);
    if runs.len() == 0 {
        let empty: Vec<u64> = Vec::new();
        proof {
            assert(values@ =~= Seq::<u64>::empty());
            lemma_sorted_perm_is_sort_spec(values@, empty@);
        }
        return empty;
    }
    let (last, _steps) = reduce(runs);
    proof {
        lemma_sorted_perm_is_sort_spec(values@, last@);
        assert(last@.to_multiset().len() == values@.to_multiset().len());
    }
    last
}

/// The sorted result does not depend on how the input was cut into
/// runs: whatever buffer capacity produced the runs, and in whatever
/// order correct merges combined them, a sorted output holding exactly
/// the input's keys is the one canonical sorted permutation, so any two
/// such outputs are identical.
pub proof fn lemma_chunking_invariance(values: Seq<u64>, r1: Seq<u64>, r2: Seq<u64>)
    requires
        sorted(r1),
        r1.to_multiset() == values.to_multiset(),
        sorted(r2),
        r2.to_multiset() == values.to_multiset(),
    ensures
        r1 == r2,
{
    lemma_sorted_perm_is_sort_spec(values, r1);
    lemma_sorted_perm_is_sort_spec(values, r2);
}

/// The compute half of the binary-to-text exporter: reads the record
/// stream of the final run and gives back the IEEE 754 bit patterns of
/// its values, in the run's own order, one per record. A stream whose
/// length is not a multiple of the record width is rejected as
/// [`SortError::MalformedRunError`]. The decimal rendering of each
/// pattern is the shell's concern.
pub fn export_bits(bytes: &Vec<u8>) -> (r: Result<Vec<u64>, SortError>)
    ensures
        match r {
            Ok(bits) => bytes@.len() % 8 == 0 && bits@.len() == decoded(bytes@).len() && forall|
                i: int,
            |
                0 <= i < bits@.len() ==> bits@[i] == spec_bits_of_key(
                    #[trigger] decoded(bytes@)[i],
                ),
            Err(e) => e == SortError::MalformedRunError && bytes@.len() % 8 != 0,
        },
{
    let keys = match decode_run(bytes) {
        Ok(ks) => ks,
        Err(e) => {
            return Err(e);
        },
    };
    let mut bits: Vec<u64> = Vec::new();
    let mut i: usize = 0;
    while i < keys.len()
        invariant
            i <= keys@.len(),
            keys@ == decoded(bytes@),
            bits@.len() == i,
            forall|t: int| 0 <= t < i ==> bits@[t] == spec_bits_of_key(#[trigger] keys@[t]),
        decreases keys@.len() - i,
    {
        let b = bits_of_key(keys[i]);
        bits.push(b);
        i = i + 1;
    }
    Ok(bits)
}

} // verus!
