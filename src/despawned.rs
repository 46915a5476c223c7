use vstd::prelude::*;

verus! {

/// The ids already removed during one collision pass, held in bevy's hash set.
#[verifier::external_body]
pub struct DespawnedList {
    ids: bevy::utils::HashSet<u64>,
}

/// The ids that a `DespawnedList` holds.
pub uninterp spec fn despawned_ids(list: DespawnedList) -> Set<u64>;

impl DespawnedList {
    /// Relies on `HashSet::default` (hashbrown, as re-exported by bevy::utils):
    /// a new set holds nothing.
    #[verifier::external_body]
    pub fn new() -> (r: DespawnedList)
        ensures
            despawned_ids(r) == Set::<u64>::empty(),
    {
        DespawnedList { ids: bevy::utils::HashSet::default() }
    }

    /// Relies on `HashSet::contains`: true exactly when the id was inserted.
    #[verifier::external_body]
    pub fn contains(&self, id: u64) -> (r: bool)
        ensures
            r == despawned_ids(*self).contains(id),
    {
        self.ids.contains(&id)
    }

    /// Relies on `HashSet::insert`: the id is added and nothing else changes.
    #[verifier::external_body]
    pub fn insert(&mut self, id: u64)
        ensures
            despawned_ids(*final(self)) == despawned_ids(*old(self)).insert(id),
    {
        self.ids.insert(id);
    }
}

} // verus!
