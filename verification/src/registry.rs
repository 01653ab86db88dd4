//! File-identity registry: a concurrent set of (device, inode) pairs used to
//! count each hard-linked file exactly once per scan session.
//!
//! The set itself is a `dashmap::DashMap`, safe for insertion from many
//! parallel scan tasks; two tasks observing the same identity agree on
//! exactly one "first" winner because `insert` returns the previous value
//! atomically. Verus sees the map only through the contracts below, stated
//! over the abstract set of identities it holds.

use vstd::prelude::*;

verus! {

/// The set of identities that a registry currently holds.
pub uninterp spec fn registry_ids(r: IdentityRegistry) -> Set<(u64, u64)>;

/// A session-scoped set of observed file identities, backed by a
/// `dashmap::DashMap` keyed by (device, inode).
#[verifier::external_body]
pub struct IdentityRegistry {
    map: dashmap::DashMap<(u64, u64), ()>,
}

impl IdentityRegistry {
    /// Relies on dashmap::DashMap::new: creates an empty map.
    #[verifier::external_body]
    pub fn new() -> (r: IdentityRegistry)
        ensures
            registry_ids(r) == Set::<(u64, u64)>::empty(),
    {
        IdentityRegistry { map: dashmap::DashMap::new() }
    }

    /// Record one observation of an identity; true iff this observation is
    /// the first within the session.
    ///
    /// Relies on dashmap::DashMap::insert: inserts the key and returns the
    /// value previously associated with it, `None` exactly when the key was
    /// absent; afterwards the key is present.
    #[verifier::external_body]
    pub fn observe(&mut self, dev: u64, ino: u64) -> (first: bool)
        ensures
            registry_ids(*final(self)) == registry_ids(*old(self)).insert((dev, ino)),
            first == !registry_ids(*old(self)).contains((dev, ino)),
    {
        self.map.insert((dev, ino), ()).is_none()
    }

    /// Forget every identity, ready for a fresh session.
    ///
    /// Relies on dashmap::DashMap::clear: removes all entries.
    #[verifier::external_body]
    pub fn clear(&mut self)
        ensures
            registry_ids(*final(self)) == Set::<(u64, u64)>::empty(),
    {
        self.map.clear()
    }
}

} // verus!
