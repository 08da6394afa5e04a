//! The object registry: canonical object key to handler, built by repeated
//! registration before the server runs, read-only afterwards.

use vstd::prelude::*;
use crate::error::Error;
use crate::protocol::{ObjectID, Output, Request};

verus! {

/// A service instance as the server sees it: it says which object it is and
/// executes one request at a time.
///
/// Implementations come from library users; nothing is assumed of what
/// `dispatch` returns.
pub trait Object {
    /// The identifier the object is registered under.
    fn id(&self) -> ObjectID;

    /// Executes one method call: the handler's output, or a framework-level
    /// failure (unknown method, bad arguments).
    fn dispatch(&self, request: &Request) -> Result<Output, Error>;
}

/// The keys of a run of registry entries, in order.
pub open spec fn spec_entry_keys<H>(entries: Seq<(String, H)>) -> Seq<Seq<char>> {
    Seq::new(entries.len(), |i: int| entries[i].0@)
}

/// An immutable-after-build mapping from an object's canonical key to its
/// handler.
pub struct Registry<H> {
    entries: Vec<(String, H)>,
}

impl<H> Registry<H> {
    /// The keys currently registered.
    pub closed spec fn keys(&self) -> Seq<Seq<char>> {
        spec_entry_keys(self.entries@)
    }

    /// Whether a key is registered.
    pub open spec fn contains(&self, k: Seq<char>) -> bool {
        self.keys().contains(k)
    }

    /// Each key is held once.
    pub closed spec fn wf(&self) -> bool {
        forall|i: int, j: int|
            0 <= i < j < self.keys().len() ==> self.keys()[i] != self.keys()[j]
    }

    /// An empty registry.
    pub fn new() -> (r: Registry<H>)
        ensures
            r.wf(),
            r.keys() == Seq::<Seq<char>>::empty(),
    {
        let r = Registry { entries: Vec::new() };
        proof {
            assert(r.keys() =~= Seq::<Seq<char>>::empty());
        }
        r
    }

    /// How many handlers are registered.
    pub fn len(&self) -> (n: usize)
        ensures
            n == self.keys().len(),
    {
        self.entries.len()
    }

    /// Registers a handler under a key; a handler already under that key is
    /// replaced, every other entry is untouched.
    pub fn insert(&mut self, key: String, handler: H)
        requires
            old(self).wf(),
        ensures
            final(self).wf(),
            final(self).contains(key@),
            forall|k: Seq<char>|
                k != key@ ==> final(self).contains(k) == old(self).contains(k),
    {
        let n = self.entries.len();
        let mut i: usize = 0;
        while i < n
            invariant
                i <= n,
                n == self.entries@.len(),
                self.wf(),
                *self == *old(self),
                forall|j: int| 0 <= j < i ==> self.keys()[j] != key@,
            decreases n - i,
        {
            let cur: &String = &self.entries[i].0;
            if *cur == key {
                let ghost prev = self.entries@;
                self.entries.set(i, (key, handler));
                proof {
                    assert(self.keys() =~= prev.map_values(|e: (String, H)| e.0@));
                    assert(self.keys() =~= old(self).keys());
                    assert(self.keys()[i as int] == key@);
                    assert(self.contains(key@));
                    assert forall|k: Seq<char>| k != key@ implies self.contains(k) == old(
                        self,
                    ).contains(k) by {
                        assert(self.keys() == old(self).keys());
                    }
                }
                return ;
            }
            i = i + 1;
        }
        let ghost prev = self.entries@;
        self.entries.push((key, handler));
        proof {
            assert(self.keys() =~= spec_entry_keys(prev).push(key@));
            assert(self.contains(key@)) by {
                assert(self.keys()[prev.len() as int] == key@);
            }
            assert forall|k: Seq<char>| k != key@ implies final(self).contains(k) == old(
                self,
            ).contains(k) by {
                if old(self).contains(k) {
                    let j = choose|j: int| 0 <= j < old(self).keys().len() && old(self).keys()[j] == k;
                    assert(self.keys()[j] == k);
                }
                if self.contains(k) {
                    let j = choose|j: int| 0 <= j < self.keys().len() && self.keys()[j] == k;
                    assert(j < prev.len());
                    assert(old(self).keys()[j] == k);
                }
            }
        }
    }

    /// Looks a key up; `None` exactly when no handler is registered under it.
    pub fn get(&self, key: &String) -> (r: Option<&H>)
        ensures
            r is Some <==> self.contains(key@),
    {
        let n = self.entries.len();
        let mut i: usize = 0;
        while i < n
            invariant
                i <= n,
                n == self.entries@.len(),
                forall|j: int| 0 <= j < i ==> self.keys()[j] != key@,
            decreases n - i,
        {
            let cur: &String = &self.entries[i].0;
            if *cur == *key {
                proof {
                    assert(self.keys()[i as int] == key@);
                }
                return Some(&self.entries[i].1);
            }
            i = i + 1;
        }
        proof {
            if self.contains(key@) {
                let j = choose|j: int| 0 <= j < self.keys().len() && self.keys()[j] == key@;
                assert(false);
            }
        }
        None
    }

    /// The registered keys, as strings, in registration order.
    pub fn key_list(&self) -> (r: Vec<String>)
        ensures
            r@.len() == self.keys().len(),
            forall|i: int| 0 <= i < r@.len() ==> r@[i]@ == self.keys()[i],
    {
        let n = self.entries.len();
        let mut r: Vec<String> = Vec::new();
        let mut i: usize = 0;
        while i < n
            invariant
                i <= n,
                n == self.entries@.len(),
                r@.len() == i,
                forall|j: int| 0 <= j < i ==> r@[j]@ == self.keys()[j],
            decreases n - i,
        {
            r.push(self.entries[i].0.clone());
            i = i + 1;
        }
        r
    }
}

} // verus!
