//! What this library takes on trust: the `multimap` crate's `MultiMap`, and
//! two functions of the standard library on strings.
//!
//! Nothing here is proved. Each contract restates what the named function's
//! source or documentation says.

use multimap::MultiMap;
use vstd::prelude::*;

verus! {

/// `multimap::MultiMap`, a hash map from keys to vectors of values. Verified
/// code holds and passes such maps but cannot look inside them.
#[verifier::external_type_specification]
#[verifier::external_body]
#[verifier::reject_recursive_types(K)]
#[verifier::reject_recursive_types(V)]
#[verifier::reject_recursive_types(S)]
pub struct ExMultiMap<K, V, S>(MultiMap<K, V, S>);

/// What a `MultiMap` from strings to strings holds: for each key that is
/// present, the values inserted under it, oldest first.
pub uninterp spec fn multimap_entries(m: MultiMap<String, String>) -> Map<Seq<char>, Seq<Seq<char>>>;

/// `MultiMap::new`: a map without keys.
#[verifier::external_body]
pub(crate) fn multimap_new() -> (m: MultiMap<String, String>)
    ensures
        multimap_entries(m) == (Map::<Seq<char>, Seq<Seq<char>>>::empty()),
{
    MultiMap::new()
}

/// `MultiMap::insert`: where the key is present the value is pushed onto the
/// end of the key's vector; where it is not, the key is added with a vector
/// of that one value. No other key is touched.
#[verifier::external_body]
pub(crate) fn multimap_insert(m: &mut MultiMap<String, String>, k: String, v: String)
    ensures
        multimap_entries(*final(m)) == multimap_entries(*old(m)).insert(
            k@,
            if multimap_entries(*old(m)).contains_key(k@) {
                multimap_entries(*old(m))[k@].push(v@)
            } else {
                seq![v@]
            },
        ),
{
    m.insert(k, v)
}

/// `MultiMap::get_vec`: the vector of the values under the key, where the
/// key is present, and `None` where it is not.
#[verifier::external_body]
pub(crate) fn multimap_get_vec<'a>(m: &'a MultiMap<String, String>, k: &str) -> (r: Option<
    &'a Vec<String>,
>)
    ensures
        r is Some <==> multimap_entries(*m).contains_key(k@),
        r matches Some(v) ==> v@.map_values(|s: String| s@) == multimap_entries(*m)[k@],
{
    m.get_vec(k)
}

/// `String::push` appends the character to the end of the string.
pub assume_specification[ String::push ](s: &mut String, ch: char)
    ensures
        final(s)@ == old(s)@.push(ch),
;

/// `String::pop` removes the last character and returns it; on the empty
/// string it returns `None` and changes nothing.
pub assume_specification[ String::pop ](s: &mut String) -> (r: Option<char>)
    ensures
        old(s)@.len() == 0 ==> r is None && final(s)@ == old(s)@,
        old(s)@.len() > 0 ==> r == Some(old(s)@.last()) && final(s)@ == old(s)@.drop_last(),
;

} // verus!
