//! Outside facilities that several registries use: the concurrent map and identifiers.

use vstd::prelude::*;

verus! {

/// `dashmap::DashMap`, the map that the registries keep their entries in.
#[verifier::external_type_specification]
#[verifier::external_body]
#[verifier::reject_recursive_types(K)]
#[verifier::reject_recursive_types(V)]
#[verifier::reject_recursive_types(S)]
pub struct ExDashMap<K, V, S>(dashmap::DashMap<K, V, S>);

/// A character of an identifier.
pub open spec fn id_char(c: char) -> bool {
    ||| 'A' <= c && c <= 'Z'
    ||| 'a' <= c && c <= 'z'
    ||| '0' <= c && c <= '9'
    ||| c == '_'
    ||| c == '-'
}

/// An identifier: twelve letters, digits, underscores or hyphens.
pub open spec fn is_id(s: Seq<char>) -> bool {
    s.len() == 12 && forall|i: int| 0 <= i < s.len() ==> id_char(#[trigger] s[i])
}

/// A fresh random identifier, from `nid::Nanoid::new` with twelve symbols of its default
/// alphabet. Which one it is is left to chance, and so is whether it was given out before.
#[verifier::external_body]
pub(crate) fn new_id() -> (r: String)
    ensures
        is_id(r@),
{
    nid::Nanoid::<12>::new().to_string()
}

} // verus!
