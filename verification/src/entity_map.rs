//! Entity mapping table.
//!
//! The bidirectional binding between server-authoritative entity identifiers
//! and client-local ones.  The reconciliation engine translates every
//! incoming authoritative reference through this table before it mutates
//! anything; a lookup for an identifier that is not bound is a no-op for the
//! caller, never a failure of the whole snapshot.
use vstd::prelude::*;
use crate::assoc::{assoc_contains, assoc_map, assoc_wf, lemma_assoc_at, lemma_assoc_dom_len,
    lemma_assoc_empty, lemma_assoc_push, lemma_assoc_remove, lemma_assoc_update};
use crate::types::EntityId;

verus! {

/// Map from server entity identifier to client entity identifier.
///
/// Viewed as the finite map its entries denote; `wf` says no server
/// identifier is bound twice.
pub struct NetworkMapping {
    pairs: Vec<(EntityId, EntityId)>,
}

impl View for NetworkMapping {
    type V = Map<EntityId, EntityId>;

    closed spec fn view(&self) -> Map<EntityId, EntityId> {
        assoc_map(self.pairs@)
    }
}

impl NetworkMapping {
    /// No server identifier is bound twice.
    pub closed spec fn wf(self) -> bool {
        assoc_wf(self.pairs@)
    }

    /// An empty table.
    pub fn new() -> (r: NetworkMapping)
        ensures
            r.wf(),
            r@ == Map::<EntityId, EntityId>::empty(),
    {
        let r = NetworkMapping { pairs: Vec::new() };
        proof {
            lemma_assoc_empty(r.pairs@);
        }
        r
    }

    /// Binds `server` to `client`, replacing any earlier binding of
    /// `server`.
    pub fn insert(&mut self, server: EntityId, client: EntityId)
        requires
            old(self).wf(),
        ensures
            final(self).wf(),
            final(self)@ == old(self)@.insert(server, client),
    {
        let n = self.pairs.len();
        let mut i: usize = 0;
        while i < n
            invariant
                old(self).wf(),
                n == self.pairs@.len(),
                i <= n,
                *self == *old(self),
                forall|j: int| 0 <= j < i ==> self.pairs@[j].0 != server,
            decreases n - i,
        {
            if self.pairs[i].0 == server {
                self.pairs[i] = (server, client);
                proof {
                    lemma_assoc_update(old(self).pairs@, i as int, client);
                }
                return ;
            }
            i = i + 1;
        }
        proof {
            assert(!assoc_contains(self.pairs@, server));
            lemma_assoc_push(self.pairs@, server, client);
        }
        self.pairs.push((server, client));
    }

    /// The client identifier bound to `server`, where one is.
    pub fn lookup(&self, server: EntityId) -> (r: Option<EntityId>)
        requires
            self.wf(),
        ensures
            r == (if self@.contains_key(server) {
                Some(self@[server])
            } else {
                None::<EntityId>
            }),
    {
        let n = self.pairs.len();
        let mut i: usize = 0;
        while i < n
            invariant
                self.wf(),
                n == self.pairs@.len(),
                i <= n,
                forall|j: int| 0 <= j < i ==> self.pairs@[j].0 != server,
            decreases n - i,
        {
            if self.pairs[i].0 == server {
                proof {
                    lemma_assoc_at(self.pairs@, i as int);
                }
                return Some(self.pairs[i].1);
            }
            i = i + 1;
        }
        proof {
            assert(!assoc_contains(self.pairs@, server));
        }
        None
    }

    /// Drops the binding of `server`, handing back the client identifier it
    /// was bound to, where one was.
    pub fn remove(&mut self, server: EntityId) -> (r: Option<EntityId>)
        requires
            old(self).wf(),
        ensures
            final(self).wf(),
            final(self)@ == old(self)@.remove(server),
            r == (if old(self)@.contains_key(server) {
                Some(old(self)@[server])
            } else {
                None::<EntityId>
            }),
    {
        let n = self.pairs.len();
        let mut i: usize = 0;
        while i < n
            invariant
                old(self).wf(),
                *self == *old(self),
                n == self.pairs@.len(),
                i <= n,
                forall|j: int| 0 <= j < i ==> self.pairs@[j].0 != server,
            decreases n - i,
        {
            if self.pairs[i].0 == server {
                proof {
                    lemma_assoc_at(self.pairs@, i as int);
                    lemma_assoc_remove(self.pairs@, i as int);
                }
                let c = self.pairs[i].1;
                self.pairs.remove(i);
                return Some(c);
            }
            i = i + 1;
        }
        proof {
            assert(!assoc_contains(self.pairs@, server));
            assert(self@ =~= self@.remove(server));
        }
        None
    }

    /// How many bindings the table holds.
    pub fn len(&self) -> (r: usize)
        requires
            self.wf(),
        ensures
            r == self@.dom().len(),
    {
        proof {
            lemma_assoc_dom_len(self.pairs@);
        }
        self.pairs.len()
    }
}

} // verus!
