//! Key sequences of the ordered std collections, in increasing order.
use vstd::prelude::*;
use std::collections::BTreeMap;
use std::collections::BTreeSet;
use vstd::std_specs::cmp::OrdSpec;

verus! {

broadcast use vstd::std_specs::btree::group_btree_axioms, vstd::laws_cmp::group_laws_cmp;

/// Each element is smaller than every element after it.
pub open spec fn strictly_increasing(s: Seq<u32>) -> bool {
    forall|i: int, j: int| 0 <= i < j < s.len() ==> s[i] < s[j]
}

/// The keys of `m`, in increasing order.
pub fn sorted_keys<V>(m: &BTreeMap<u32, V>) -> (ks: Vec<u32>)
    ensures
        strictly_increasing(ks@),
        forall|k: u32| ks@.contains(k) <==> m@.contains_key(k),
{
    let mut ks: Vec<u32> = Vec::new();
    for k in it: m.keys()
        invariant
            ks@.len() == it.index(),
            forall|j: int| 0 <= j < it.index() ==> ks@[j] == *it.seq()[j],
            it.seq().unref().to_set() == m@.dom(),
            vstd::std_specs::btree::increasing_seq(it.seq()),
            strictly_increasing(ks@),
            forall|x: u32| ks@.contains(x) ==> m@.contains_key(x),
            forall|x: u32| m@.contains_key(x) ==> ks@.contains(x)
                || (exists|j: int| it.index() <= j < it.seq().len() && *it.seq()[j] == x),
    {
        proof {
            let sq = it.seq();
            let i = it.index();
            assert(*sq[i] == *k);
            vstd::std_specs::btree::axiom_increasing_seq_meaning(sq);
            assert(forall|a: int, b: int| 0 <= a < b < sq.len() ==> OrdSpec::cmp_spec(&sq[a], &sq[b]) is Less);
            assert(forall|a: int| 0 <= a < i ==> *sq[a] < *k) by {
                assert forall|a: int| 0 <= a < i implies *sq[a] < *k by {
                    assert(OrdSpec::cmp_spec(&sq[a], &sq[i]) is Less);
                }
            }
            assert(sq.unref().to_set().contains(*k));
        }
        let ghost i = it.index();
        let ghost sq = it.seq();
        ks.push(*k);
        proof {
            assert forall|x: u32| m@.contains_key(x) && !ks@.contains(x) implies
                (exists|j: int| i + 1 <= j < sq.len() && *sq[j] == x) by {
                assert(sq.unref().to_set().contains(x));
                let j = choose|j: int| 0 <= j < sq.unref().len() && sq.unref()[j] == x;
                assert(*sq[j] == x);
                if j < i {
                    assert(ks@[j] == x);
                }
                if j == i {
                    assert(ks@[i] == x);
                }
            }
            assert forall|x: u32| ks@.contains(x) implies m@.contains_key(x) by {
                let j = choose|j: int| 0 <= j < ks@.len() && ks@[j] == x;
                assert(*sq[j] == x);
                assert(sq.unref()[j] == x);
                assert(sq.unref().to_set().contains(x));
            }
        }
    }
    ks
}


/// The elements of `m`, in increasing order.
pub fn sorted_elements(m: &BTreeSet<u32>) -> (ks: Vec<u32>)
    ensures
        strictly_increasing(ks@),
        forall|k: u32| ks@.contains(k) <==> m@.contains(k),
{
    let mut ks: Vec<u32> = Vec::new();
    for k in it: m.iter()
        invariant
            ks@.len() == it.index(),
            forall|j: int| 0 <= j < it.index() ==> ks@[j] == *it.seq()[j],
            it.seq().unref().to_set() == m@,
            vstd::std_specs::btree::increasing_seq(it.seq()),
            strictly_increasing(ks@),
            forall|x: u32| ks@.contains(x) ==> m@.contains(x),
            forall|x: u32| m@.contains(x) ==> ks@.contains(x)
                || (exists|j: int| it.index() <= j < it.seq().len() && *it.seq()[j] == x),
    {
        proof {
            let sq = it.seq();
            let i = it.index();
            assert(*sq[i] == *k);
            vstd::std_specs::btree::axiom_increasing_seq_meaning(sq);
            assert(forall|a: int, b: int| 0 <= a < b < sq.len() ==> OrdSpec::cmp_spec(&sq[a], &sq[b]) is Less);
            assert(forall|a: int| 0 <= a < i ==> *sq[a] < *k) by {
                assert forall|a: int| 0 <= a < i implies *sq[a] < *k by {
                    assert(OrdSpec::cmp_spec(&sq[a], &sq[i]) is Less);
                }
            }
            assert(sq.unref().to_set().contains(*k));
        }
        let ghost i = it.index();
        let ghost sq = it.seq();
        ks.push(*k);
        proof {
            assert forall|x: u32| m@.contains(x) && !ks@.contains(x) implies
                (exists|j: int| i + 1 <= j < sq.len() && *sq[j] == x) by {
                assert(sq.unref().to_set().contains(x));
                let j = choose|j: int| 0 <= j < sq.unref().len() && sq.unref()[j] == x;
                assert(*sq[j] == x);
                if j < i {
                    assert(ks@[j] == x);
                }
                if j == i {
                    assert(ks@[i] == x);
                }
            }
            assert forall|x: u32| ks@.contains(x) implies m@.contains(x) by {
                let j = choose|j: int| 0 <= j < ks@.len() && ks@[j] == x;
                assert(*sq[j] == x);
                assert(sq.unref()[j] == x);
                assert(sq.unref().to_set().contains(x));
            }
        }
    }
    ks
}


} // verus!
