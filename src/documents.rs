use std::collections::HashSet;
use std::hash::Hash;
use std::marker::PhantomData;

use vstd::prelude::*;
use vstd::std_specs::hash::obeys_key_model;

use crate::ids::Id;

verus! {

broadcast use vstd::std_specs::hash::group_hash_axioms;

/// The version of a document: zero until its first save, one more after each save.
#[derive(Debug, Clone, Copy, PartialEq, Eq, Structural, PartialOrd, Ord, Hash)]
pub struct Version(pub u64);

impl Default for Version {
    fn default() -> (r: Version)
        ensures
            r.0 == 0,
    {
        Version(0)
    }
}

/// The identity and version that every stored document carries.
#[derive(Debug)]
pub struct DocMeta<T> {
    pub id: Id<T>,
    pub version: Version,
    pub _phantom: PhantomData<T>,
}

/// A document that exposes its metadata.
pub trait HasMeta: Sized {
    /// The entity that tags the document's identifier.
    type Entity;

    /// The document's metadata.
    fn meta(&self) -> &DocMeta<Self::Entity>;

    /// The document's metadata, to change.
    fn meta_mut(&mut self) -> &mut DocMeta<Self::Entity>;
}

/// Messages waiting to leave with their document: a set, so sending a message
/// twice keeps one copy.
#[derive(Debug)]
pub struct MailBox<A: Eq + Hash> {
    pub outgoing: HashSet<A>,
}

impl<T> DocMeta<T> {
    /// The metadata of a document that has never been saved: version zero.
    pub fn new_with_id(id: Id<T>) -> (r: DocMeta<T>)
        ensures
            r.id@ == id@,
            r.version.0 == 0,
    {
        let version = Version(0);
        DocMeta { id, version, _phantom: PhantomData }
    }

    /// Counts one more save.
    pub fn increment_version(&mut self)
        requires
            old(self).version.0 < u64::MAX,
        ensures
            final(self).version.0 == old(self).version.0 + 1,
            final(self).id@ == old(self).id@,
    {
        self.version = Version(self.version.0 + 1);
    }
}

impl<T> Clone for DocMeta<T> {
    fn clone(&self) -> (r: DocMeta<T>)
        ensures
            r.id@ == self.id@,
            r.version == self.version,
    {
        DocMeta { id: self.id.clone(), version: self.version, _phantom: PhantomData }
    }
}

impl<A: Eq + Hash> MailBox<A> {
    /// A mailbox with nothing in it.
    pub fn empty() -> (r: MailBox<A>)
        ensures
            r.outgoing@ == Set::<A>::empty(),
    {
        MailBox { outgoing: HashSet::new() }
    }

    /// Adds `msg` to the outgoing messages; a message already there stays once.
    pub fn send(&mut self, msg: A)
        requires
            obeys_key_model::<A>(),
        ensures
            final(self).outgoing@ == old(self).outgoing@.insert(msg),
    {
        self.outgoing.insert(msg);
    }
}

impl<A: Eq + Hash> Default for MailBox<A> {
    fn default() -> (r: MailBox<A>)
        ensures
            r.outgoing@ == Set::<A>::empty(),
    {
        MailBox::empty()
    }
}

/// Sending a message that is already waiting leaves the outgoing messages as they
/// were; so sending one message twice to an empty mailbox leaves exactly one.
pub proof fn lemma_send_idempotent<A>(outgoing: Set<A>, msg: A)
    ensures
        outgoing.insert(msg).insert(msg) == outgoing.insert(msg),
        Set::<A>::empty().insert(msg).insert(msg).len() == 1,
{
    assert(outgoing.insert(msg).insert(msg) =~= outgoing.insert(msg));
    assert(Set::<A>::empty().insert(msg) =~= set![msg]);
    assert(set![msg].insert(msg) =~= set![msg]);
    assert(set![msg].len() == 1) by {
        assert(set![msg] =~= Set::<A>::empty().insert(msg));
    }
}

} // verus!
