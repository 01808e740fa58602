use vstd::prelude::*;

verus! {

/// The capability the engine's callers program against: a mutable mapping
/// from byte-sequence keys to byte-sequence values. Each implementation
/// says through `store_view` which mapping it currently represents.
pub trait KeyValueStore {
    /// The mapping the store currently represents.
    spec fn store_view(&self) -> Map<Seq<u8>, Seq<u8>>;

    /// The value bound to `key`, or `None` if the key is absent.
    fn get(&self, key: &[u8]) -> (r: Option<Vec<u8>>)
        ensures
            r matches Some(v) ==> self.store_view().contains_key(key@) && v@
                == self.store_view()[key@],
            r is None ==> !self.store_view().contains_key(key@),
    ;

    /// Bind `key` to `value`, replacing any earlier binding.
    fn set(&mut self, key: &[u8], value: &[u8])
        ensures
            final(self).store_view() == old(self).store_view().insert(key@, value@),
    ;

    /// Clear `key`; clearing an absent key is a no-op.
    fn remove(&mut self, key: &[u8])
        ensures
            final(self).store_view() == old(self).store_view().remove(key@),
    ;
}

} // verus!
