//! The store's reading laws, stated over the abstract key/value map that the
//! operation contracts use.
use vstd::prelude::*;

verus! {

/// After `set(k, v)`, a `get(k)` yields `v`, and every other key reads as
/// before — until the next `set` or `rm` of `k` replaces the binding again.
pub proof fn lemma_set_then_get(
    m: Map<Seq<char>, Seq<char>>,
    k: Seq<char>,
    v: Seq<char>,
    k2: Seq<char>,
)
    ensures
        m.insert(k, v).contains_key(k),
        m.insert(k, v)[k] == v,
        k2 != k ==> m.insert(k, v).contains_key(k2) == m.contains_key(k2),
        k2 != k && m.contains_key(k2) ==> m.insert(k, v)[k2] == m[k2],
{
}

/// After `rm(k)`, a `get(k)` yields nothing, and every other key reads as
/// before — until a later `set(k, _)` binds the key again.
pub proof fn lemma_remove_then_get(m: Map<Seq<char>, Seq<char>>, k: Seq<char>, k2: Seq<char>)
    ensures
        !m.remove(k).contains_key(k),
        k2 != k ==> m.remove(k).contains_key(k2) == m.contains_key(k2),
        k2 != k && m.contains_key(k2) ==> m.remove(k)[k2] == m[k2],
{
}

/// A later `set(k, v2)` on the same key overwrites, and a `set` after a `rm`
/// resurrects the key.
pub proof fn lemma_overwrite(m: Map<Seq<char>, Seq<char>>, k: Seq<char>, v1: Seq<char>, v2: Seq<char>)
    ensures
        m.insert(k, v1).insert(k, v2)[k] == v2,
        m.remove(k).insert(k, v2)[k] == v2,
{
}

} // verus!
