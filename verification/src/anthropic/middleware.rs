//! What an access key opens.

use std::collections::HashSet;

use vstd::prelude::*;

verus! {

broadcast use vstd::std_specs::hash::group_hash_axioms;

/// The credentials that a request may use: all of them where there is no set, and otherwise those
/// of the set and no others, though there be none.
#[derive(Clone, Debug)]
pub struct AllowedCredentials(pub Option<HashSet<u64>>);

/// What came of looking up the credentials of a key.
pub enum KeyLookup {
    /// There is no database to look in.
    NoDatabase,
    /// The set of the group that the key is bound to, where it is bound to one.
    Found(Option<HashSet<u64>>),
    /// The database could not be read.
    Failed,
}

impl AllowedCredentials {
    /// The credential may be used.
    pub open spec fn allows(self, id: u64) -> bool {
        match self.0 {
            Some(set) => set@.contains(id),
            None => true,
        }
    }

    /// Whether a credential may be used.
    pub fn admits(&self, id: u64) -> (r: bool)
        ensures
            r == self.allows(id),
    {
        match &self.0 {
            Some(set) => set.contains(&id),
            None => true,
        }
    }
}

/// The set that restricts a key, where there is one. Groups spread the load and are no barrier:
/// where the database fails, all credentials may be used.
pub open spec fn restriction(lookup: KeyLookup) -> Option<HashSet<u64>> {
    match lookup {
        KeyLookup::Found(set) => set,
        _ => None,
    }
}

/// What a key may use.
pub fn resolve(lookup: KeyLookup) -> (r: AllowedCredentials)
    ensures
        r.0 == restriction(lookup),
{
    match lookup {
        KeyLookup::Found(set) => AllowedCredentials(set),
        KeyLookup::NoDatabase => AllowedCredentials(None),
        KeyLookup::Failed => AllowedCredentials(None),
    }
}

/// A key that is bound to a group uses the credentials of the group and no others; a key that is
/// bound to none, or whose group cannot be read, is shut out of nothing.
pub proof fn keys_are_held_to_their_group(lookup: KeyLookup, id: u64)
    ensures
        lookup matches KeyLookup::Found(Some(set)) ==> (AllowedCredentials(
            restriction(lookup),
        ).allows(id) <==> set@.contains(id)),
        !(lookup matches KeyLookup::Found(Some(_))) ==> AllowedCredentials(
            restriction(lookup),
        ).allows(id),
{
}

} // verus!
