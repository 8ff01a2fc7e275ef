//! The linearizable key/value register: read, write, and
//! compare-and-set over a map of integer keys.

use vstd::prelude::*;

use crate::assoc::{assoc_view, distinct_keys, lemma_assoc_at, lemma_assoc_contains, lemma_assoc_push, lemma_assoc_update};
use crate::protocol::{CasData, ErrorCode, ErrorData, Key, ReadData, ReadOkData, Value, WriteData};

verus! {

/// The key/value store of one node, viewed as a map.
pub struct LocalState {
    map: Vec<(Key, Value)>,
}

impl View for LocalState {
    type V = Map<Key, Value>;

    closed spec fn view(&self) -> Map<Key, Value> {
        assoc_view(self.map@)
    }
}

impl LocalState {
    /// Each key is stored at most once.
    pub closed spec fn wf(&self) -> bool {
        distinct_keys(self.map@)
    }

    /// An empty store.
    pub fn new() -> (r: Self)
        ensures
            r.wf(),
            r@ == Map::<Key, Value>::empty(),
    {
        Self { map: Vec::new() }
    }

    /// The position of `key`, if it is stored.
    fn find(&self, key: Key) -> (r: Option<usize>)
        ensures
            match r {
                Some(i) => i < self.entries().len() && self.entries()[i as int].0 == key,
                None => forall|i: int|
                    0 <= i < self.entries().len() ==> (#[trigger] self.entries()[i]).0 != key,
            },
    {
        let mut i: usize = 0;
        while i < self.map.len()
            invariant
                i <= self.entries().len(),
                forall|k: int| 0 <= k < i ==> (#[trigger] self.entries()[k]).0 != key,
            decreases self.entries().len() - i,
        {
            if self.map[i].0 == key {
                return Some(i);
            }
            i = i + 1;
        }
        None
    }

    /// The stored entries (specification-level).
    pub closed spec fn entries(&self) -> Seq<(Key, Value)> {
        self.map@
    }

    /// Read `data.key`: its value, or a key-does-not-exist error exactly
    /// when the key is absent.
    pub fn read(&self, data: &ReadData) -> (r: Result<ReadOkData, ErrorData>)
        requires
            self.wf(),
        ensures
            match r {
                Ok(ok) => self@.contains_key(data.key) && ok.value == self@[data.key],
                Err(e) => !self@.contains_key(data.key) && e.code == ErrorCode::KeyDoesNotExist,
            },
    {
        match self.find(data.key) {
            Some(i) => {
                proof {
                    lemma_assoc_at(self.entries(), i as int);
                }
                Ok(ReadOkData { value: self.map[i].1 })
            },
            None => {
                proof {
                    lemma_assoc_contains(self.entries(), data.key);
                }
                Err(key_does_not_exist_error())
            },
        }
    }

    /// Write `data.value` under `data.key`, creating or replacing it.
    pub fn write(&mut self, data: &WriteData)
        requires
            old(self).wf(),
        ensures
            final(self).wf(),
            final(self)@ == old(self)@.insert(data.key, data.value),
    {
        match self.find(data.key) {
            Some(i) => {
                proof {
                    lemma_assoc_update(self.entries(), i as int, data.value);
                }
                self.map.set(i, (data.key, data.value));
            },
            None => {
                proof {
                    lemma_assoc_push(self.entries(), data.key, data.value);
                }
                self.map.push((data.key, data.value));
            },
        }
    }

    /// Compare-and-set: replace `data.from` by `data.to` under `data.key`.
    /// Fails with key-does-not-exist exactly when the key is absent, and
    /// with precondition-failed exactly when the stored value differs from
    /// `data.from`; only success changes the store.
    pub fn cas(&mut self, data: &CasData) -> (r: Result<(), ErrorData>)
        requires
            old(self).wf(),
        ensures
            final(self).wf(),
            match r {
                Ok(_) => old(self)@.contains_key(data.key) && old(self)@[data.key] == data.from
                    && final(self)@ == old(self)@.insert(data.key, data.to),
                Err(e) => final(self)@ == old(self)@ && ((e.code == ErrorCode::KeyDoesNotExist
                    && !old(self)@.contains_key(data.key)) || (e.code
                    == ErrorCode::PreconditionFailed && old(self)@.contains_key(data.key) && old(
                    self,
                )@[data.key] != data.from)),
            },
    {
        match self.find(data.key) {
            Some(i) => {
                proof {
                    lemma_assoc_at(self.entries(), i as int);
                }
                if self.map[i].1 == data.from {
                    proof {
                        lemma_assoc_update(self.entries(), i as int, data.to);
                    }
                    self.map.set(i, (data.key, data.to));
                    Ok(())
                } else {
                    Err(
                        ErrorData::new(
                            "CAS from value doesn't match the current value".to_string(),
                            ErrorCode::PreconditionFailed,
                        ),
                    )
                }
            },
            None => {
                proof {
                    lemma_assoc_contains(self.entries(), data.key);
                }
                Err(key_does_not_exist_error())
            },
        }
    }
}

/// The error a read or compare-and-set of an absent key reports.
pub fn key_does_not_exist_error() -> (r: ErrorData)
    ensures
        r.code == ErrorCode::KeyDoesNotExist,
{
    ErrorData::new("Key does not exist".to_string(), ErrorCode::KeyDoesNotExist)
}

} // verus!
