//! The durable key-value capability the persistence schema is written
//! against: an opaque map from key strings to byte values, with atomic
//! single-key put/get/delete and an existence check. The repository depends
//! only on this trait; `InMemoryStore` is the crate's own verified adapter
//! (and the test double), while adapters over real storage engines live with
//! the embedding program.

use vstd::prelude::*;
use vstd::string::StrSliceExecFns;

verus! {

/// A storage-level failure (an I/O error), reported as data.
#[derive(Debug, Clone, Copy, PartialEq, Eq, Structural)]
pub struct StoreError;

/// An ordered, durable key-value store. Each operation may fail with a
/// `StoreError`; a failed operation leaves the contents unchanged.
pub trait Store: Sized {
    /// The current contents, as a map from key strings to byte values.
    spec fn contents(&self) -> Map<Seq<char>, Seq<u8>>;

    /// Stores `value` under `key`, replacing any previous value.
    fn put(&mut self, key: &str, value: Vec<u8>) -> (r: Result<(), StoreError>)
        ensures
            match r {
                Ok(_) => final(self).contents() == old(self).contents().insert(key@, value@),
                Err(_) => final(self).contents() == old(self).contents(),
            },
    ;

    /// Reads the most recent value stored under `key`, or none. Absence is a
    /// normal outcome, not an error.
    fn get(&self, key: &str) -> (r: Result<Option<Vec<u8>>, StoreError>)
        ensures
            match r {
                Ok(Some(v)) => self.contents().contains_key(key@) && v@ == self.contents()[key@],
                Ok(None) => !self.contents().contains_key(key@),
                Err(_) => true,
            },
    ;

    /// Removes `key` from the store.
    fn delete(&mut self, key: &str) -> (r: Result<(), StoreError>)
        ensures
            match r {
                Ok(_) => final(self).contents() == old(self).contents().remove(key@),
                Err(_) => final(self).contents() == old(self).contents(),
            },
    ;

    /// Does the store hold a value under `key`?
    fn has_key(&self, key: &str) -> (r: Result<bool, StoreError>)
        ensures
            match r {
                Ok(b) => b == self.contents().contains_key(key@),
                Err(_) => true,
            },
    ;
}

/// The contents a write log denotes: later entries win, a `None` value is a
/// deletion.
spec fn log_contents(log: Seq<(String, Option<Vec<u8>>)>) -> Map<Seq<char>, Seq<u8>>
    decreases log.len(),
{
    if log.len() == 0 {
        Map::empty()
    } else {
        let rest = log_contents(log.drop_last());
        match log.last().1 {
            Some(v) => rest.insert(log.last().0@, v@),
            None => rest.remove(log.last().0@),
        }
    }
}

/// What a map holds at one key.
spec fn lookup(m: Map<Seq<char>, Seq<u8>>, k: Seq<char>) -> Option<Seq<u8>> {
    if m.contains_key(k) {
        Some(m[k])
    } else {
        None
    }
}

/// An in-memory, log-structured store: every write appends to a log, and a
/// read scans the log backwards for the most recent entry. Never fails.
pub struct InMemoryStore {
    log: Vec<(String, Option<Vec<u8>>)>,
}

pub(crate) fn str_eq(a: &str, b: &str) -> (r: bool)
    ensures
        r == (a@ == b@),
{
    let la = a.unicode_len();
    let lb = b.unicode_len();
    if la != lb {
        return false;
    }
    let mut i: usize = 0;
    while i < la
        invariant
            i <= la,
            la == a@.len(),
            la == b@.len(),
            forall|j: int| 0 <= j < i ==> a@[j] == b@[j],
        decreases la - i,
    {
        if a.get_char(i) != b.get_char(i) {
            return false;
        }
        i += 1;
    }
    proof {
        assert(a@ =~= b@);
    }
    true
}

proof fn lemma_log_skip_last(log: Seq<(String, Option<Vec<u8>>)>, k: Seq<char>)
    requires
        log.len() > 0,
        log.last().0@ != k,
    ensures
        lookup(log_contents(log), k) == lookup(log_contents(log.drop_last()), k),
{
}

impl InMemoryStore {
    /// An empty store.
    pub fn new() -> (r: InMemoryStore)
        ensures
            r.contents() == Map::<Seq<char>, Seq<u8>>::empty(),
    {
        InMemoryStore { log: Vec::new() }
    }
}

impl Store for InMemoryStore {
    closed spec fn contents(&self) -> Map<Seq<char>, Seq<u8>> {
        log_contents(self.log@)
    }

    fn put(&mut self, key: &str, value: Vec<u8>) -> (r: Result<(), StoreError>)
        ensures
            r is Ok,
    {
        self.log.push((key.to_owned(), Some(value)));
        proof {
            assert(self.log@.drop_last() =~= old(self).log@);
        }
        Ok(())
    }

    fn get(&self, key: &str) -> (r: Result<Option<Vec<u8>>, StoreError>)
        ensures
            r is Ok,
    {
        let mut idx: usize = self.log.len();
        proof {
            assert(self.log@.take(idx as int) =~= self.log@);
        }
        while idx > 0
            invariant
                idx <= self.log.len(),
                lookup(log_contents(self.log@), key@) == lookup(
                    log_contents(self.log@.take(idx as int)),
                    key@,
                ),
            decreases idx,
        {
            let entry = &self.log[idx - 1];
            proof {
                assert(self.log@.take(idx as int).last() == self.log@[idx - 1]);
                assert(self.log@.take(idx as int).drop_last() =~= self.log@.take(idx - 1));
            }
            if str_eq(entry.0.as_str(), key) {
                match &entry.1 {
                    Some(v) => {
                        let out = v.clone();
                        proof {
                            assert(out@ =~= v@);
                        }
                        return Ok(Some(out));
                    },
                    None => {
                        return Ok(None);
                    },
                }
            }
            proof {
                lemma_log_skip_last(self.log@.take(idx as int), key@);
            }
            idx = idx - 1;
        }
        proof {
            assert(self.log@.take(0) =~= Seq::<(String, Option<Vec<u8>>)>::empty());
        }
        Ok(None)
    }

    fn delete(&mut self, key: &str) -> (r: Result<(), StoreError>)
        ensures
            r is Ok,
    {
        self.log.push((key.to_owned(), None));
        proof {
            assert(self.log@.drop_last() =~= old(self).log@);
        }
        Ok(())
    }

    fn has_key(&self, key: &str) -> (r: Result<bool, StoreError>)
        ensures
            r is Ok,
    {
        match self.get(key) {
            Ok(Some(_)) => Ok(true),
            Ok(None) => Ok(false),
            Err(e) => Err(e),
        }
    }
}

} // verus!
