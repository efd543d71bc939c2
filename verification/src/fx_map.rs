//! Hash maps that hash with fxhash.

use fxhash::FxBuildHasher;
use std::collections::HashMap;
use vstd::prelude::*;
use vstd::std_specs::iter::IteratorSpec;

verus! {

/// `fxhash::FxHasher`, the state of one hash computation.
#[verifier::external_type_specification]
#[verifier::external_body]
pub struct ExFxHasher(fxhash::FxHasher);

/// `std::hash::BuildHasherDefault`, which builds a hasher from its
/// `Default`.
#[verifier::external_type_specification]
#[verifier::external_body]
#[verifier::reject_recursive_types(H)]
pub struct ExBuildHasherDefault<H>(std::hash::BuildHasherDefault<H>);

/// A hash map that hashes with fxhash.
pub type FxMap<K, V> = HashMap<K, V, FxBuildHasher>;

/// Whether the hashers of `m` give equal keys equal hashes, so that the map
/// finds again what was put into it. This is what the contracts of a hash
/// map's methods ask of its hasher.
pub open spec fn fx_hashed<K, V>(m: &FxMap<K, V>) -> bool {
    vstd::std_specs::hash::builds_valid_hashers::<FxBuildHasher>()
}

/// `HashMap::with_hasher(FxBuildHasher::default())`: the map is empty. Each
/// hasher that the builder makes starts from the same state and computes its
/// hash from nothing but the bytes written to it, so equal keys get equal
/// hashes.
#[verifier::external_body]
pub(crate) fn fx_new<K, V>() -> (m: FxMap<K, V>)
    ensures
        m@.dom() == Set::<K>::empty(),
        fx_hashed(&m),
{
    HashMap::with_hasher(FxBuildHasher::default())
}

/// The keys of `map`, each once, in the order in which the map hands them
/// out.
pub fn fx_keys<K: Copy, V>(map: &FxMap<K, V>) -> (keys: Vec<K>)
    requires
        fx_hashed(map),
        vstd::std_specs::hash::obeys_key_model::<K>(),
    ensures
        keys@.no_duplicates(),
        keys@.to_set() == map@.dom(),
{
    let mut keys: Vec<K> = Vec::new();
    for k in it: map.keys()
        invariant
            keys@.len() == it.index(),
            forall|i: int| 0 <= i < keys@.len() ==> keys@[i] == *it.seq()[i],
    {
        keys.push(*k);
    }
    proof {
        let all = map.keys().remaining();
        assert(keys@ =~= all.unref());
        assert(keys@.no_duplicates()) by {
            assert forall|i: int, j: int|
                0 <= i < keys@.len() && 0 <= j < keys@.len() && i != j implies keys@[i]
                != keys@[j] by {
                assert(all[i] != all[j]);
            }
        }
    }
    keys
}

} // verus!
