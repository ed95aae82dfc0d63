//! The table of live sessions.

use std::collections::HashMap;
use vstd::std_specs::hash::spec_hash_map_iter;
use vstd::std_specs::iter::IteratorSpec;
use vstd::prelude::*;

verus! {

broadcast use vstd::std_specs::hash::group_hash_axioms;

/// Maps the identity of each live session to the handle on which the session
/// is written to. The registry owns the handles that it holds.
pub struct Registry<C> {
    sessions: HashMap<u16, C>,
}

impl<C> View for Registry<C> {
    type V = Map<u16, C>;

    closed spec fn view(&self) -> Map<u16, C> {
        self.sessions@
    }
}

impl<C> Registry<C> {
    /// A registry without sessions.
    pub fn new() -> (r: Self)
        ensures
            r@ == Map::<u16, C>::empty(),
    {
        Registry { sessions: HashMap::new() }
    }

    /// Number of live sessions.
    pub fn len(&self) -> (n: usize)
        ensures
            n == self@.len(),
            self@.dom().finite(),
    {
        self.sessions.len()
    }

    /// Whether `identity` has a live session.
    pub fn contains(&self, identity: u16) -> (r: bool)
        ensures
            r == self@.contains_key(identity),
    {
        self.sessions.contains_key(&identity)
    }

    /// Adds the session of `identity`, which must not have one yet.
    pub fn insert(&mut self, identity: u16, connection: C)
        requires
            !old(self)@.contains_key(identity),
        ensures
            final(self)@ == old(self)@.insert(identity, connection),
    {
        self.sessions.insert(identity, connection);
    }

    /// Removes the session of `identity` if there is one, and hands back its
    /// handle.
    pub fn remove(&mut self, identity: u16) -> (r: Option<C>)
        ensures
            final(self)@ == old(self)@.remove(identity),
            r == if old(self)@.contains_key(identity) {
                Some(old(self)@[identity])
            } else {
                None
            },
    {
        self.sessions.remove(&identity)
    }

    /// The live sessions, each once, in no particular order.
    pub fn sessions(&self) -> (r: Vec<(u16, &C)>)
        ensures
            r@.len() == self@.len(),
            forall|i: int| 0 <= i < r@.len() ==> self@.contains_pair(r@[i].0, *r@[i].1),
            forall|i: int, j: int| 0 <= i < j < r@.len() ==> r@[i].0 != r@[j].0,
            forall|identity: u16|
                self@.contains_key(identity) ==> exists|i: int|
                    0 <= i < r@.len() && r@[i].0 == identity,
    {
        let mut out: Vec<(u16, &C)> = Vec::new();
        for entry in it: self.sessions.iter()
            invariant
                it.seq() == spec_hash_map_iter(&self.sessions).remaining(),
                it.seq().no_duplicates(),
                out@.len() == it.index(),
                forall|i: int|
                    0 <= i < out@.len() ==> out@[i].0 == *it.seq()[i].0 && out@[i].1
                        == it.seq()[i].1,
        {
            out.push((*entry.0, entry.1));
        }
        proof {
            let all = spec_hash_map_iter(&self.sessions).remaining();
            assert forall|i: int, j: int| 0 <= i < j < out@.len() implies out@[i].0
                != out@[j].0 by {
                if out@[i].0 == out@[j].0 {
                    assert(self.sessions@.contains_key(*all[i].0));
                    assert(self.sessions@.contains_key(*all[j].0));
                    assert(all[i] == all[j]);
                }
            }
            assert forall|identity: u16| self@.contains_key(identity) implies exists|i: int|
                0 <= i < out@.len() && out@[i].0 == identity by {
                let pair = (&identity, &self.sessions@[identity]);
                assert(all.contains(pair));
                let i = choose|i: int| 0 <= i < all.len() && all[i] == pair;
                assert(out@[i].0 == identity);
            }
        }
        out
    }
}

} // verus!
