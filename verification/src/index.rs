use vstd::prelude::*;

use crate::log_pointer::LogPointer;

verus! {

/// Whether two byte vectors hold the same bytes.
fn bytes_eq(a: &Vec<u8>, b: &Vec<u8>) -> (r: bool)
    ensures
        r == (a@ == b@),
{
    if a.len() != b.len() {
        return false;
    }
    let mut i: usize = 0;
    while i < a.len()
        invariant
            i <= a@.len(),
            a@.len() == b@.len(),
            forall|j: int| 0 <= j < i ==> a@[j] == b@[j],
        decreases a@.len() - i,
    {
        if a[i] != b[i] {
            return false;
        }
        i += 1;
    }
    proof {
        assert(a@ =~= b@);
    }
    true
}

/// The mapping an association list denotes: later entries shadow earlier
/// ones (entries are kept unique, so nothing is ever shadowed).
spec fn entries_map(s: Seq<(Vec<u8>, LogPointer)>) -> Map<Seq<u8>, LogPointer>
    decreases s.len(),
{
    if s.len() == 0 {
        Map::empty()
    } else {
        entries_map(s.drop_last()).insert(s.last().0@, s.last().1)
    }
}

/// No two entries carry the same key.
spec fn entries_unique(s: Seq<(Vec<u8>, LogPointer)>) -> bool {
    forall|i: int, j: int| 0 <= i < j < s.len() ==> s[i].0@ != s[j].0@
}

proof fn lemma_entries_map_contains(s: Seq<(Vec<u8>, LogPointer)>, k: Seq<u8>)
    ensures
        entries_map(s).contains_key(k) <==> exists|i: int| 0 <= i < s.len() && s[i].0@ == k,
    decreases s.len(),
{
    if s.len() > 0 {
        lemma_entries_map_contains(s.drop_last(), k);
        if entries_map(s).contains_key(k) {
            if s.last().0@ == k {
                assert(s[s.len() - 1].0@ == k);
            } else {
                let i = choose|i: int| 0 <= i < s.drop_last().len() && s.drop_last()[i].0@ == k;
                assert(s[i].0@ == k);
            }
        }
        if exists|i: int| 0 <= i < s.len() && s[i].0@ == k {
            let i = choose|i: int| 0 <= i < s.len() && s[i].0@ == k;
            if i < s.len() - 1 {
                assert(s.drop_last()[i].0@ == k);
            }
        }
    }
}

proof fn lemma_entries_map_index(s: Seq<(Vec<u8>, LogPointer)>, i: int)
    requires
        entries_unique(s),
        0 <= i < s.len(),
    ensures
        entries_map(s).contains_key(s[i].0@),
        entries_map(s)[s[i].0@] == s[i].1,
    decreases s.len(),
{
    if i == s.len() - 1 {
    } else {
        lemma_entries_map_index(s.drop_last(), i);
        assert(s.drop_last()[i] == s[i]);
        assert(s.last().0@ != s[i].0@);
    }
}

proof fn lemma_entries_map_update(s: Seq<(Vec<u8>, LogPointer)>, i: int, e: (Vec<u8>, LogPointer))
    requires
        entries_unique(s),
        0 <= i < s.len(),
        e.0@ == s[i].0@,
    ensures
        entries_map(s.update(i, e)) == entries_map(s).insert(e.0@, e.1),
    decreases s.len(),
{
    let s2 = s.update(i, e);
    if i == s.len() - 1 {
        assert(s2.drop_last() =~= s.drop_last());
        assert(entries_map(s2) =~= entries_map(s).insert(e.0@, e.1));
    } else {
        lemma_entries_map_update(s.drop_last(), i, e);
        assert(s2.drop_last() =~= s.drop_last().update(i, e));
        assert(s2.last() == s.last());
        assert(s.last().0@ != e.0@);
        assert(entries_map(s2) =~= entries_map(s).insert(e.0@, e.1));
    }
}

proof fn lemma_entries_map_remove(s: Seq<(Vec<u8>, LogPointer)>, i: int)
    requires
        entries_unique(s),
        0 <= i < s.len(),
    ensures
        entries_map(s.remove(i)) == entries_map(s).remove(s[i].0@),
    decreases s.len(),
{
    let s2 = s.remove(i);
    if i == s.len() - 1 {
        assert(s2 =~= s.drop_last());
        lemma_entries_map_contains(s.drop_last(), s[i].0@);
        assert(!entries_map(s.drop_last()).contains_key(s[i].0@));
        assert(entries_map(s2) =~= entries_map(s).remove(s[i].0@));
    } else {
        lemma_entries_map_remove(s.drop_last(), i);
        assert(s2.drop_last() =~= s.drop_last().remove(i));
        assert(s2.last() == s.last());
        assert(s.last().0@ != s[i].0@);
        assert(entries_map(s2) =~= entries_map(s).remove(s[i].0@));
    }
}

/// The in-memory index: a mapping from each live key to the Log Pointer of
/// its latest Set record. It holds locations only, never value bytes.
pub struct Index {
    entries: Vec<(Vec<u8>, LogPointer)>,
}

impl View for Index {
    type V = Map<Seq<u8>, LogPointer>;

    closed spec fn view(&self) -> Map<Seq<u8>, LogPointer> {
        entries_map(self.entries@)
    }
}

impl Index {
    /// Each key appears at most once.
    pub closed spec fn wf(&self) -> bool {
        entries_unique(self.entries@)
    }

    /// The empty index.
    pub fn new() -> (r: Index)
        ensures
            r@ == Map::<Seq<u8>, LogPointer>::empty(),
            r.wf(),
    {
        Index { entries: Vec::new() }
    }

    /// Where `i` stops: the position of `key` among the entries, if any.
    fn find(&self, key: &Vec<u8>) -> (r: Option<usize>)
        ensures
            match r {
                Some(i) => i < self.entries@.len() && self.entries@[i as int].0@ == key@,
                None => forall|j: int| 0 <= j < self.entries@.len() ==> self.entries@[j].0@ != key@,
            },
    {
        let mut i: usize = 0;
        while i < self.entries.len()
            invariant
                i <= self.entries@.len(),
                forall|j: int| 0 <= j < i ==> self.entries@[j].0@ != key@,
            decreases self.entries@.len() - i,
        {
            if bytes_eq(&self.entries[i].0, key) {
                return Some(i);
            }
            i += 1;
        }
        None
    }

    /// The pointer the key currently maps to, if the key is live.
    pub fn lookup(&self, key: &Vec<u8>) -> (r: Option<LogPointer>)
        requires
            self.wf(),
        ensures
            r == if self@.contains_key(key@) {
                Some(self@[key@])
            } else {
                None::<LogPointer>
            },
    {
        proof {
            lemma_entries_map_contains(self.entries@, key@);
        }
        match self.find(key) {
            Some(i) => {
                proof {
                    lemma_entries_map_index(self.entries@, i as int);
                }
                Some(self.entries[i].1)
            }
            None => None,
        }
    }

    /// Bind `key` to `ptr`, returning the pointer it replaced, if any.
    pub fn insert(&mut self, key: Vec<u8>, ptr: LogPointer) -> (old_ptr: Option<LogPointer>)
        requires
            old(self).wf(),
        ensures
            final(self).wf(),
            final(self)@ == old(self)@.insert(key@, ptr),
            old_ptr == if old(self)@.contains_key(key@) {
                Some(old(self)@[key@])
            } else {
                None::<LogPointer>
            },
    {
        proof {
            lemma_entries_map_contains(self.entries@, key@);
        }
        match self.find(&key) {
            Some(i) => {
                proof {
                    lemma_entries_map_index(self.entries@, i as int);
                    lemma_entries_map_update(self.entries@, i as int, (key, ptr));
                }
                let prev = self.entries[i].1;
                self.entries[i] = (key, ptr);
                Some(prev)
            }
            None => {
                proof {
                    assert(self.entries@.push((key, ptr)).drop_last() =~= self.entries@);
                }
                self.entries.push((key, ptr));
                None
            }
        }
    }

    /// Clear `key`, returning the pointer it mapped to, if any.
    pub fn remove(&mut self, key: &Vec<u8>) -> (old_ptr: Option<LogPointer>)
        requires
            old(self).wf(),
        ensures
            final(self).wf(),
            final(self)@ == old(self)@.remove(key@),
            old_ptr == if old(self)@.contains_key(key@) {
                Some(old(self)@[key@])
            } else {
                None::<LogPointer>
            },
    {
        proof {
            lemma_entries_map_contains(self.entries@, key@);
        }
        match self.find(key) {
            Some(i) => {
                proof {
                    lemma_entries_map_index(self.entries@, i as int);
                    lemma_entries_map_remove(self.entries@, i as int);
                }
                let entry = self.entries.remove(i);
                Some(entry.1)
            }
            None => {
                proof {
                    assert(self@.remove(key@) =~= self@);
                }
                None
            }
        }
    }
}

} // verus!
