use vstd::prelude::*;

use crate::kv::KeyValueStore;

verus! {

/// Whether `a`'s bytes are `b`'s bytes.
fn vec_slice_eq(a: &Vec<u8>, b: &[u8]) -> (r: bool)
    ensures
        r == (a@ == b@),
{
    if a.len() != b.len() {
        return false;
    }
    let mut i: usize = 0;
    while i < a.len()
        invariant
            i <= a@.len(),
            a@.len() == b@.len(),
            forall|j: int| 0 <= j < i ==> a@[j] == b@[j],
        decreases a@.len() - i,
    {
        if a[i] != b[i] {
            return false;
        }
        i += 1;
    }
    proof {
        assert(a@ =~= b@);
    }
    true
}

/// The mapping an association list denotes: later entries shadow earlier
/// ones (entries are kept unique, so nothing is ever shadowed).
spec fn store_map(s: Seq<(Vec<u8>, Vec<u8>)>) -> Map<Seq<u8>, Seq<u8>>
    decreases s.len(),
{
    if s.len() == 0 {
        Map::empty()
    } else {
        store_map(s.drop_last()).insert(s.last().0@, s.last().1@)
    }
}

/// No two entries carry the same key.
spec fn store_keys_unique(s: Seq<(Vec<u8>, Vec<u8>)>) -> bool {
    forall|i: int, j: int| 0 <= i < j < s.len() ==> s[i].0@ != s[j].0@
}

proof fn lemma_store_map_contains(s: Seq<(Vec<u8>, Vec<u8>)>, k: Seq<u8>)
    ensures
        store_map(s).contains_key(k) <==> exists|i: int| 0 <= i < s.len() && s[i].0@ == k,
    decreases s.len(),
{
    if s.len() > 0 {
        lemma_store_map_contains(s.drop_last(), k);
        if store_map(s).contains_key(k) {
            if s.last().0@ == k {
                assert(s[s.len() - 1].0@ == k);
            } else {
                let i = choose|i: int| 0 <= i < s.drop_last().len() && s.drop_last()[i].0@ == k;
                assert(s[i].0@ == k);
            }
        }
        if exists|i: int| 0 <= i < s.len() && s[i].0@ == k {
            let i = choose|i: int| 0 <= i < s.len() && s[i].0@ == k;
            if i < s.len() - 1 {
                assert(s.drop_last()[i].0@ == k);
            }
        }
    }
}

proof fn lemma_store_map_index(s: Seq<(Vec<u8>, Vec<u8>)>, i: int)
    requires
        store_keys_unique(s),
        0 <= i < s.len(),
    ensures
        store_map(s).contains_key(s[i].0@),
        store_map(s)[s[i].0@] == s[i].1@,
    decreases s.len(),
{
    if i < s.len() - 1 {
        lemma_store_map_index(s.drop_last(), i);
        assert(s.drop_last()[i] == s[i]);
        assert(s.last().0@ != s[i].0@);
    }
}

proof fn lemma_store_map_remove(s: Seq<(Vec<u8>, Vec<u8>)>, i: int)
    requires
        store_keys_unique(s),
        0 <= i < s.len(),
    ensures
        store_map(s.remove(i)) == store_map(s).remove(s[i].0@),
    decreases s.len(),
{
    let s2 = s.remove(i);
    if i == s.len() - 1 {
        assert(s2 =~= s.drop_last());
        lemma_store_map_contains(s.drop_last(), s[i].0@);
        assert(store_map(s2) =~= store_map(s).remove(s[i].0@));
    } else {
        lemma_store_map_remove(s.drop_last(), i);
        assert(s2.drop_last() =~= s.drop_last().remove(i));
        assert(s2.last() == s.last());
        assert(s.last().0@ != s[i].0@);
        assert(store_map(s2) =~= store_map(s).remove(s[i].0@));
    }
}

/// Where `key` stands among the entries, if anywhere.
fn find_entry(entries: &Vec<(Vec<u8>, Vec<u8>)>, key: &[u8]) -> (r: Option<usize>)
    ensures
        match r {
            Some(i) => i < entries@.len() && entries@[i as int].0@ == key@,
            None => forall|j: int| 0 <= j < entries@.len() ==> entries@[j].0@ != key@,
        },
{
    let mut i: usize = 0;
    while i < entries.len()
        invariant
            i <= entries@.len(),
            forall|j: int| 0 <= j < i ==> entries@[j].0@ != key@,
        decreases entries@.len() - i,
    {
        if vec_slice_eq(&entries[i].0, key) {
            return Some(i);
        }
        i += 1;
    }
    None
}

/// The non-persistent reference store: the same three-operation capability
/// as the engine, over an in-memory association of keys to values.
pub struct HashMapStore {
    entries: Vec<(Vec<u8>, Vec<u8>)>,
}

impl HashMapStore {
    #[verifier::type_invariant]
    spec fn inv(&self) -> bool {
        store_keys_unique(self.entries@)
    }

    /// The empty store.
    pub fn new() -> (r: Self)
        ensures
            r.store_view() == Map::<Seq<u8>, Seq<u8>>::empty(),
    {
        HashMapStore { entries: Vec::new() }
    }
}

impl KeyValueStore for HashMapStore {
    closed spec fn store_view(&self) -> Map<Seq<u8>, Seq<u8>> {
        store_map(self.entries@)
    }

    fn get(&self, key: &[u8]) -> (r: Option<Vec<u8>>) {
        proof {
            use_type_invariant(&*self);
            lemma_store_map_contains(self.entries@, key@);
        }
        match find_entry(&self.entries, key) {
            Some(i) => {
                proof {
                    lemma_store_map_index(self.entries@, i as int);
                }
                Some(crate::command::copy_bytes(&self.entries[i].1))
            }
            None => None,
        }
    }

    fn set(&mut self, key: &[u8], value: &[u8]) {
        proof {
            use_type_invariant(&*self);
        }
        let mut entries: Vec<(Vec<u8>, Vec<u8>)> = Vec::new();
        core::mem::swap(&mut entries, &mut self.entries);
        let kvec = vstd::slice::slice_to_vec(key);
        let vvec = vstd::slice::slice_to_vec(value);
        proof {
            lemma_store_map_contains(entries@, key@);
        }
        match find_entry(&entries, key) {
            Some(i) => {
                proof {
                    lemma_store_map_remove(entries@, i as int);
                }
                let _ = entries.remove(i);
            }
            None => {}
        }
        let ghost cleared = entries@;
        entries.push((kvec, vvec));
        proof {
            assert(entries@.drop_last() =~= cleared);
            lemma_store_map_contains(cleared, key@);
            assert(store_map(entries@) =~= store_map(old(self).entries@).insert(key@, value@));
        }
        self.entries = entries;
    }

    fn remove(&mut self, key: &[u8]) {
        proof {
            use_type_invariant(&*self);
        }
        let mut entries: Vec<(Vec<u8>, Vec<u8>)> = Vec::new();
        core::mem::swap(&mut entries, &mut self.entries);
        proof {
            lemma_store_map_contains(entries@, key@);
        }
        match find_entry(&entries, key) {
            Some(i) => {
                proof {
                    lemma_store_map_remove(entries@, i as int);
                }
                let _ = entries.remove(i);
            }
            None => {
                proof {
                    assert(store_map(entries@).remove(key@) =~= store_map(entries@));
                }
            }
        }
        self.entries = entries;
    }
}

} // verus!
