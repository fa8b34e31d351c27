//! The persistent maps of the `im` crate that the compiler keeps its
//! environments in, behind wrappers whose contracts speak of their contents.

use vstd::prelude::*;

verus! {

#[verifier::external_type_specification]
#[verifier::external_body]
#[verifier::reject_recursive_types(K)]
#[verifier::reject_recursive_types(V)]
#[verifier::reject_recursive_types(S)]
pub struct ExImHashMap<K, V, S>(im::HashMap<K, V, S>);

/// What an environment holds: each variable name, by its text, mapped to the
/// stack offset of its slot.
pub uninterp spec fn env_contents(m: im::HashMap<String, i32>) -> Map<Seq<char>, i32>;

/// What a set of seen names holds: each name, by its text, mapped to its flag.
pub uninterp spec fn seen_contents(m: im::HashMap<String, bool>) -> Map<Seq<char>, bool>;

/// `im::HashMap::new`: an empty environment.
#[verifier::external_body]
pub(crate) fn env_new() -> (fresh: im::HashMap<String, i32>)
    ensures
        env_contents(fresh) =~= Map::empty(),
{
    im::HashMap::new()
}

/// `im::HashMap::get`: the offset bound to `name`, if any.
#[verifier::external_body]
pub(crate) fn env_get(m: &im::HashMap<String, i32>, name: &String) -> (r: Option<i32>)
    ensures
        env_contents(*m).dom().contains(name@) ==> r == Some(env_contents(*m)[name@]),
        !env_contents(*m).dom().contains(name@) ==> r is None,
{
    m.get(name).copied()
}

/// `im::HashMap::insert`: binds `name` to `offset`, replacing an earlier
/// binding of the same name.
#[verifier::external_body]
pub(crate) fn env_insert(m: &mut im::HashMap<String, i32>, name: String, offset: i32)
    ensures
        env_contents(*final(m)) == env_contents(*old(m)).insert(name@, offset),
{
    m.insert(name, offset);
}

/// `Clone::clone` of `im::HashMap`: a map with the same contents.
#[verifier::external_body]
pub(crate) fn env_clone(m: &im::HashMap<String, i32>) -> (r: im::HashMap<String, i32>)
    ensures
        env_contents(r) == env_contents(*m),
{
    m.clone()
}

/// `im::HashMap::new`: an empty set of seen names.
#[verifier::external_body]
pub(crate) fn seen_new() -> (fresh: im::HashMap<String, bool>)
    ensures
        seen_contents(fresh) =~= Map::empty(),
{
    im::HashMap::new()
}

/// `im::HashMap::contains_key`: whether `name` has been seen.
#[verifier::external_body]
pub(crate) fn seen_contains(m: &im::HashMap<String, bool>, name: &String) -> (r: bool)
    ensures
        r == seen_contents(*m).dom().contains(name@),
{
    m.contains_key(name)
}

/// `im::HashMap::insert`: marks `name` with `flag`.
#[verifier::external_body]
pub(crate) fn seen_insert(m: &mut im::HashMap<String, bool>, name: String, flag: bool)
    ensures
        seen_contents(*final(m)) == seen_contents(*old(m)).insert(name@, flag),
{
    m.insert(name, flag);
}

} // verus!
