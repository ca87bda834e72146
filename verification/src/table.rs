//! The keyed tables in which the strategies keep their records: hash maps of
//! the `fnv` crate, keyed by small numbers.

use fnv::FnvHashMap;
use vstd::prelude::*;

verus! {

/// The hasher of the `fnv` crate. Nothing is said of it: it only names the
/// kind of map the records are kept in.
#[verifier::external_type_specification]
#[verifier::external_body]
pub struct ExFnvHasher(fnv::FnvHasher);

/// std's builder of default hashers, by which `fnv` makes its maps. Nothing
/// is said of it.
#[verifier::external_type_specification]
#[verifier::external_body]
#[verifier::reject_recursive_types(H)]
pub struct ExBuildHasherDefault<H>(std::hash::BuildHasherDefault<H>);

/// Looks a key up with `HashMap::get` on a map of the `fnv` crate. The map
/// hands out the value that was last stored under the key, if any.
#[verifier::external_body]
pub(crate) fn lookup<V: Copy>(table: &FnvHashMap<u32, V>, k: u32) -> (r: Option<V>)
    ensures
        r == if table@.contains_key(k) {
            Some(table@[k])
        } else {
            None::<V>
        },
{
    table.get(&k).copied()
}

/// Stores a value with `HashMap::insert` on a map of the `fnv` crate. The
/// value replaces what the key held; all other keys keep what they hold.
#[verifier::external_body]
pub(crate) fn store<V>(table: &mut FnvHashMap<u32, V>, k: u32, value: V)
    ensures
        final(table)@ == old(table)@.insert(k, value),
{
    table.insert(k, value);
}

} // verus!
