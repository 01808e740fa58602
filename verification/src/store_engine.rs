use vstd::prelude::*;

verus! {

/// The mapping an association list denotes: later entries shadow earlier
/// ones (entries are kept unique, so nothing is ever shadowed).
spec fn string_map(s: Seq<(String, String)>) -> Map<Seq<char>, Seq<char>>
    decreases s.len(),
{
    if s.len() == 0 {
        Map::empty()
    } else {
        string_map(s.drop_last()).insert(s.last().0@, s.last().1@)
    }
}

/// No two entries carry the same key.
spec fn string_keys_unique(s: Seq<(String, String)>) -> bool {
    forall|i: int, j: int| 0 <= i < j < s.len() ==> s[i].0@ != s[j].0@
}

proof fn lemma_string_map_contains(s: Seq<(String, String)>, k: Seq<char>)
    ensures
        string_map(s).contains_key(k) <==> exists|i: int| 0 <= i < s.len() && s[i].0@ == k,
    decreases s.len(),
{
    if s.len() > 0 {
        lemma_string_map_contains(s.drop_last(), k);
        if string_map(s).contains_key(k) {
            if s.last().0@ == k {
                assert(s[s.len() - 1].0@ == k);
            } else {
                let i = choose|i: int| 0 <= i < s.drop_last().len() && s.drop_last()[i].0@ == k;
                assert(s[i].0@ == k);
            }
        }
        if exists|i: int| 0 <= i < s.len() && s[i].0@ == k {
            let i = choose|i: int| 0 <= i < s.len() && s[i].0@ == k;
            if i < s.len() - 1 {
                assert(s.drop_last()[i].0@ == k);
            }
        }
    }
}

proof fn lemma_string_map_index(s: Seq<(String, String)>, i: int)
    requires
        string_keys_unique(s),
        0 <= i < s.len(),
    ensures
        string_map(s).contains_key(s[i].0@),
        string_map(s)[s[i].0@] == s[i].1@,
    decreases s.len(),
{
    if i < s.len() - 1 {
        lemma_string_map_index(s.drop_last(), i);
        assert(s.drop_last()[i] == s[i]);
        assert(s.last().0@ != s[i].0@);
    }
}

proof fn lemma_string_map_remove(s: Seq<(String, String)>, i: int)
    requires
        string_keys_unique(s),
        0 <= i < s.len(),
    ensures
        string_map(s.remove(i)) == string_map(s).remove(s[i].0@),
    decreases s.len(),
{
    let s2 = s.remove(i);
    if i == s.len() - 1 {
        assert(s2 =~= s.drop_last());
        lemma_string_map_contains(s.drop_last(), s[i].0@);
        assert(string_map(s2) =~= string_map(s).remove(s[i].0@));
    } else {
        lemma_string_map_remove(s.drop_last(), i);
        assert(s2.drop_last() =~= s.drop_last().remove(i));
        assert(s2.last() == s.last());
        assert(s.last().0@ != s[i].0@);
        assert(string_map(s2) =~= string_map(s).remove(s[i].0@));
    }
}

/// Where `key` stands among the entries, if anywhere.
fn find_string(entries: &Vec<(String, String)>, key: &String) -> (r: Option<usize>)
    ensures
        match r {
            Some(i) => i < entries@.len() && entries@[i as int].0@ == key@,
            None => forall|j: int| 0 <= j < entries@.len() ==> entries@[j].0@ != key@,
        },
{
    let mut i: usize = 0;
    while i < entries.len()
        invariant
            i <= entries@.len(),
            forall|j: int| 0 <= j < i ==> entries@[j].0@ != key@,
        decreases entries@.len() - i,
    {
        if entries[i].0 == *key {
            return Some(i);
        }
        i += 1;
    }
    None
}

/// An in-memory string store with the engine's interface: a mutable
/// mapping from string keys to string values, nothing persisted.
pub struct KvStore {
    entries: Vec<(String, String)>,
}

impl View for KvStore {
    type V = Map<Seq<char>, Seq<char>>;

    closed spec fn view(&self) -> Map<Seq<char>, Seq<char>> {
        string_map(self.entries@)
    }
}

impl KvStore {
    #[verifier::type_invariant]
    spec fn inv(&self) -> bool {
        string_keys_unique(self.entries@)
    }

    /// The empty store.
    pub fn new() -> (r: KvStore)
        ensures
            r@ == Map::<Seq<char>, Seq<char>>::empty(),
    {
        KvStore { entries: Vec::new() }
    }

    /// Bind `key` to `value`, replacing any earlier binding.
    pub fn set(&mut self, key: String, value: String)
        ensures
            final(self)@ == old(self)@.insert(key@, value@),
    {
        proof {
            use_type_invariant(&*self);
        }
        let mut entries: Vec<(String, String)> = Vec::new();
        core::mem::swap(&mut entries, &mut self.entries);
        proof {
            lemma_string_map_contains(entries@, key@);
        }
        match find_string(&entries, &key) {
            Some(i) => {
                proof {
                    lemma_string_map_remove(entries@, i as int);
                }
                let _ = entries.remove(i);
            }
            None => {}
        }
        let ghost cleared = entries@;
        entries.push((key, value));
        proof {
            assert(entries@.drop_last() =~= cleared);
            lemma_string_map_contains(cleared, entries@.last().0@);
            assert(string_map(entries@) =~= string_map(old(self).entries@).insert(
                entries@.last().0@,
                entries@.last().1@,
            ));
        }
        self.entries = entries;
    }

    /// The value bound to `key`, or `None` if the key is absent.
    pub fn get(&self, key: String) -> (r: Option<String>)
        ensures
            r matches Some(v) ==> self@.contains_key(key@) && v@ == self@[key@],
            r is None ==> !self@.contains_key(key@),
    {
        proof {
            use_type_invariant(&*self);
            lemma_string_map_contains(self.entries@, key@);
        }
        match find_string(&self.entries, &key) {
            Some(i) => {
                proof {
                    lemma_string_map_index(self.entries@, i as int);
                }
                Some(self.entries[i].1.clone())
            }
            None => None,
        }
    }

    /// Clear `key`; clearing an absent key is a no-op.
    pub fn remove(&mut self, key: String)
        ensures
            final(self)@ == old(self)@.remove(key@),
    {
        proof {
            use_type_invariant(&*self);
        }
        let mut entries: Vec<(String, String)> = Vec::new();
        core::mem::swap(&mut entries, &mut self.entries);
        proof {
            lemma_string_map_contains(entries@, key@);
        }
        match find_string(&entries, &key) {
            Some(i) => {
                proof {
                    lemma_string_map_remove(entries@, i as int);
                }
                let _ = entries.remove(i);
            }
            None => {
                proof {
                    assert(string_map(entries@).remove(key@) =~= string_map(entries@));
                }
            }
        }
        self.entries = entries;
    }
}

} // verus!
