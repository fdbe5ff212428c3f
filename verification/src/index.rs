//! The key index of a table: an insertion-ordered map from column key to
//! column position, kept in a `vector_map::VecMap`.

use vstd::prelude::*;
use vector_map::VecMap;
use crate::model::first_at;

verus! {

/// `vector_map::VecMap`, a map kept in a vector of pairs; what it holds is
/// known only through `pairs`.
#[verifier::external_type_specification]
#[verifier::external_body]
#[verifier::reject_recursive_types(K)]
#[verifier::reject_recursive_types(V)]
pub struct ExVecMap<K: PartialEq, V>(VecMap<K, V>);

/// The pairs that a key index holds, in the order in which its backing
/// vector stores them.
pub uninterp spec fn pairs(m: VecMap<String, usize>) -> Seq<(Seq<char>, usize)>;

/// The keys of a sequence of pairs, in order.
pub open spec fn keys_of(p: Seq<(Seq<char>, usize)>) -> Seq<Seq<char>> {
    Seq::new(p.len(), |i: int| p[i].0)
}

/// `VecMap::new`: the new map holds no pair.
#[verifier::external_body]
pub(crate) fn index_new() -> (m: VecMap<String, usize>)
    ensures
        pairs(m) == Seq::<(Seq<char>, usize)>::empty(),
{
    VecMap::new()
}

/// `VecMap::inner`: the backing vector, which holds the pairs in order.
#[verifier::external_body]
pub(crate) fn index_inner(m: &VecMap<String, usize>) -> (v: &Vec<(String, usize)>)
    ensures
        v@.len() == pairs(*m).len(),
        forall|i: int| 0 <= i < v@.len() ==> (#[trigger] v@[i]).0@ == pairs(*m)[i].0 && v@[i].1 == pairs(*m)[i].1,
{
    m.inner()
}

/// `VecMap::get` with a string slice as the lookup key: the value of the
/// first pair whose key equals `key`, or `None` where no key does.
#[verifier::external_body]
pub(crate) fn index_get(m: &VecMap<String, usize>, key: &str) -> (r: Option<usize>)
    ensures
        r == (if first_at(keys_of(pairs(*m)), key@) < pairs(*m).len() {
            Some(pairs(*m)[first_at(keys_of(pairs(*m)), key@)].1)
        } else {
            None
        }),
{
    m.get(&key).copied()
}

/// `VecMap::insert`: where a pair with an equal key is held, the first such
/// pair gets the new value and the old value is returned; otherwise the pair
/// is appended and `None` is returned.
#[verifier::external_body]
pub(crate) fn index_insert(m: &mut VecMap<String, usize>, key: String, value: usize) -> (r: Option<usize>)
    ensures
        ({
            let p = pairs(*old(m));
            let at = first_at(keys_of(p), key@);
            if at < p.len() {
                r == Some(p[at].1) && pairs(*final(m)) == p.update(at, (p[at].0, value))
            } else {
                r.is_none() && pairs(*final(m)) == p.push((key@, value))
            }
        }),
{
    m.insert(key, value)
}

/// `VecMap::clone`: the copy holds equal pairs in the same order.
#[verifier::external_body]
pub(crate) fn index_clone(m: &VecMap<String, usize>) -> (r: VecMap<String, usize>)
    ensures
        pairs(r) == pairs(*m),
{
    m.clone()
}

} // verus!
