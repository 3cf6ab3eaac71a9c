//! The order of machine-word keys, as the ordered maps of the library walk them.
use vstd::prelude::*;
use vstd::std_specs::cmp::OrdSpec;

verus! {

/// Word keys are totally ordered, and a sequence the ordered maps call
/// increasing is strictly increasing.
pub proof fn lemma_word_keys_ordered()
    ensures
        vstd::std_specs::btree::key_obeys_cmp_spec::<usize>(),
        forall|s: Seq<usize>, i: int, j: int|
            #![trigger vstd::std_specs::btree::increasing_seq(s), s[i], s[j]]
            vstd::std_specs::btree::increasing_seq(s) && 0 <= i < j < s.len() ==> s[i] < s[j],
{
    broadcast use vstd::laws_cmp::group_laws_cmp;
    broadcast use vstd::std_specs::btree::group_btree_axioms;

    assert forall|s: Seq<usize>, i: int, j: int|
        vstd::std_specs::btree::increasing_seq(s) && 0 <= i < j < s.len() implies s[i] < s[j] by {
        assert(s[i].cmp_spec(&s[j]) is Less);
    }
}

} // verus!
