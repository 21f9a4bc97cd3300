use vstd::prelude::*;
use vstd::std_specs::btree::increasing_seq;
use vstd::std_specs::cmp::OrdSpec;

verus! {

/// The keys of a `BTreeMap<u64, _>` that its key iterator yields, in the
/// increasing order that vstd's specification of the iterator gives, are
/// strictly increasing as numbers.
pub proof fn lemma_increasing_keys(ks: Seq<&u64>)
    requires
        increasing_seq(ks),
    ensures
        forall|i: int, j: int| 0 <= i < j < ks.len() ==> *ks[i] < *ks[j],
{
    assert forall|i: int, j: int| 0 <= i < j < ks.len() implies *ks[i] < *ks[j] by {
        assert(vstd::laws_cmp::obeys_cmp::<&u64>());
        assert(OrdSpec::cmp_spec(&ks[i], &ks[j]) is Less);
    }
}

} // verus!
