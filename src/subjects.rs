use vstd::prelude::*;

use crate::documents::{DocMeta, HasMeta};
use crate::ids::IdGen;
use crate::polls;

verus! {

/// The subjects of the application, over a document store.
#[derive(Debug, Clone)]
pub struct Subjects<S> {
    pub store: S,
    pub idgen: IdGen,
}

/// A stored subject: its identifier is the one that tags its votes.
#[derive(Debug)]
pub struct Subject {
    pub meta: DocMeta<polls::Subject>,
}

/// Asks for a new subject.
#[derive(Debug)]
pub struct CreateSubject;

/// The web resource of subjects, around the service that creates them.
#[derive(Debug, Clone)]
pub struct Resource<I> {
    pub inner: I,
}

impl HasMeta for Subject {
    type Entity = polls::Subject;

    fn meta(&self) -> &DocMeta<polls::Subject> {
        &self.meta
    }

    fn meta_mut(&mut self) -> &mut DocMeta<polls::Subject> {
        &mut self.meta
    }
}

impl Subject {
    /// A new subject, never saved.
    pub fn create(idgen: &IdGen) -> (r: Subject)
        ensures
            r.meta.version.0 == 0,
    {
        Subject { meta: DocMeta::new_with_id(idgen.generate()) }
    }
}

impl<S> Subjects<S> {
    /// The subjects kept in `store`, with identifiers from `idgen`.
    pub fn new(idgen: IdGen, store: S) -> (r: Subjects<S>)
        ensures
            r.store == store,
    {
        Subjects { idgen, store }
    }
}

impl<I> Resource<I> {
    /// The resource around `inner`.
    pub fn from_inner(inner: I) -> (r: Resource<I>)
        ensures
            r.inner == inner,
    {
        Resource { inner }
    }
}

} // verus!
