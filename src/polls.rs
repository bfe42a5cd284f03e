use std::sync::{Arc, Mutex};

use vstd::prelude::*;

use crate::documents::{DocMeta, HasMeta};
use crate::ids::{is_prefix_text, Entity, Id, IdGen};
use crate::untyped_ids::UntypedId;

verus! {

/// The polls of the application, over a document store.
pub struct Polls<S> {
    pub store: S,
    pub idgen: IdGen,
}

/// Asks for a new poll with a name.
#[derive(Debug)]
pub struct CreatePoll {
    pub name: String,
}

/// Records the choice of a subject in a poll; a later vote replaces an earlier one.
#[derive(Debug)]
pub struct RecordVote {
    pub poll_id: Id<PollEntity>,
    pub subject_id: Id<Subject>,
    pub choice: String,
}

/// Asks for the count of votes of a poll.
#[derive(Debug)]
pub struct TallyVotes {
    pub poll_id: Id<PollEntity>,
}

/// How many votes each choice has, one entry per choice.
#[derive(Debug)]
pub struct VoteSummary {
    pub tally: Vec<(String, u64)>,
}

/// A poll: its metadata, its name, and the choice of each subject that voted.
#[derive(Debug)]
pub struct Poll {
    pub meta: DocMeta<PollEntity>,
    pub name: String,
    pub votes: Ballot,
}

/// The votes of a poll: each subject that voted, with its choice. No subject
/// votes twice.
#[derive(Debug)]
pub struct Ballot {
    entries: Vec<(Id<Subject>, String)>,
}

/// The entity that tags the identifiers of polls.
#[derive(Debug)]
pub struct PollEntity;

/// Someone who votes: the entity that tags the identifiers of subjects.
#[derive(Debug)]
pub struct Subject;

impl Entity for PollEntity {
    open spec fn spec_prefix() -> Seq<char> {
        seq!['p', 'o', 'l', 'l']
    }

    fn prefix() -> (r: &'static str) {
        proof {
            reveal_strlit("poll");
        }
        let r = "poll";
        assert(r@ =~= seq!['p', 'o', 'l', 'l']);
        r
    }
}

impl Entity for Subject {
    open spec fn spec_prefix() -> Seq<char> {
        seq!['s', 'u', 'b', 'j', 'e', 'c', 't']
    }

    fn prefix() -> (r: &'static str) {
        proof {
            reveal_strlit("subject");
        }
        let r = "subject";
        assert(r@ =~= seq!['s', 'u', 'b', 'j', 'e', 'c', 't']);
        r
    }
}

impl HasMeta for Poll {
    type Entity = PollEntity;

    fn meta(&self) -> &DocMeta<PollEntity> {
        &self.meta
    }

    fn meta_mut(&mut self) -> &mut DocMeta<PollEntity> {
        &mut self.meta
    }
}

/// The web resource of polls, around the service that keeps them, shared
/// behind a lock.
#[derive(Debug, Clone)]
#[verifier::reject_recursive_types(I)]
pub struct PollsResource<I> {
    pub inner: Arc<Mutex<I>>,
}

#[verifier::external_type_specification]
#[verifier::external_body]
#[verifier::reject_recursive_types(T)]
pub struct ExMutex<T: ?Sized>(Mutex<T>);

/// Relies on `Mutex::new`: a lock around `inner`.
#[verifier::external_body]
fn new_lock<I>(inner: I) -> Mutex<I> {
    Mutex::new(inner)
}

impl<I> PollsResource<I> {
    /// The resource around `inner`.
    pub fn from_inner(inner: I) -> (r: PollsResource<I>) {
        let inner = Arc::new(new_lock(inner));
        PollsResource { inner }
    }
}

/// The subject and choice of each vote.
pub open spec fn votes_view(v: Seq<(Id<Subject>, String)>) -> Seq<(UntypedId, Seq<char>)> {
    v.map_values(|e: (Id<Subject>, String)| (e.0@, e.1@))
}

/// No subject votes twice.
pub open spec fn unique_voters(v: Seq<(UntypedId, Seq<char>)>) -> bool {
    forall|i: int, j: int| 0 <= i < j < v.len() ==> #[trigger] v[i].0 != #[trigger] v[j].0
}

/// The choice of each subject that voted.
pub open spec fn ballot(v: Seq<(UntypedId, Seq<char>)>) -> Map<UntypedId, Seq<char>> {
    Map::new(
        |s: UntypedId| exists|i: int| 0 <= i < v.len() && v[i].0 == s,
        |s: UntypedId| v[choose|i: int| 0 <= i < v.len() && v[i].0 == s].1,
    )
}

/// How many of `choices` are `c`.
pub open spec fn count_of(choices: Seq<Seq<char>>, c: Seq<char>) -> nat
    decreases choices.len(),
{
    if choices.len() == 0 {
        0
    } else {
        count_of(choices.drop_last(), c) + if choices.last() == c {
            1nat
        } else {
            0nat
        }
    }
}

/// The choices of the votes, in order.
pub open spec fn choices_of(v: Seq<(UntypedId, Seq<char>)>) -> Seq<Seq<char>> {
    v.map_values(|e: (UntypedId, Seq<char>)| e.1)
}

/// The entries of a summary.
pub open spec fn tally_view(t: Seq<(String, u64)>) -> Seq<(Seq<char>, u64)> {
    t.map_values(|e: (String, u64)| (e.0@, e.1))
}

/// A summary counts the choices of `choices` exactly: one entry for each choice
/// made, with its number of votes.
pub open spec fn is_tally_of(t: Seq<(Seq<char>, u64)>, choices: Seq<Seq<char>>) -> bool {
    &&& forall|i: int, j: int| 0 <= i < j < t.len() ==> #[trigger] t[i].0 != #[trigger] t[j].0
    &&& forall|i: int| 0 <= i < t.len() ==> #[trigger] t[i].1 == count_of(choices, t[i].0)
    &&& forall|i: int| 0 <= i < t.len() ==> count_of(choices, #[trigger] t[i].0) > 0
    &&& forall|c: Seq<char>|
        #![trigger count_of(choices, c)]
        count_of(choices, c) > 0 ==> exists|i: int| 0 <= i < t.len() && t[i].0 == c
}

proof fn lemma_count_push(s: Seq<Seq<char>>, x: Seq<char>, c: Seq<char>)
    ensures
        count_of(s.push(x), c) == count_of(s, c) + if x == c {
            1nat
        } else {
            0nat
        },
{
    assert(s.push(x).drop_last() =~= s);
}

proof fn lemma_count_bound(s: Seq<Seq<char>>, c: Seq<char>)
    ensures
        count_of(s, c) <= s.len(),
    decreases s.len(),
{
    if s.len() > 0 {
        lemma_count_bound(s.drop_last(), c);
    }
}

impl Ballot {
    /// No subject votes twice.
    #[verifier::type_invariant]
    spec fn voters_unique(self) -> bool {
        unique_voters(votes_view(self.entries@))
    }

    /// A ballot with no votes.
    pub fn new() -> (r: Ballot)
        ensures
            r@.len() == 0,
    {
        Ballot { entries: Vec::new() }
    }

    /// The votes, each subject with its choice.
    pub fn entries(&self) -> (r: &Vec<(Id<Subject>, String)>)
        ensures
            votes_view(r@) == self@,
            unique_voters(self@),
    {
        proof {
            use_type_invariant(self);
        }
        &self.entries
    }

    /// Records that `subject_id` chose `choice`, replacing an earlier choice of
    /// the same subject.
    pub fn record(self, subject_id: Id<Subject>, choice: String) -> (r: Ballot)
        ensures
            unique_voters(r@),
            ballot(r@) == ballot(self@).insert(subject_id@, choice@),
    {
        proof {
            use_type_invariant(&self);
        }
        let Ballot { mut entries } = self;
        let ghost before = votes_view(entries@);
        let mut i: usize = 0;
        while i < entries.len()
            invariant
                0 <= i <= entries@.len(),
                before == votes_view(entries@),
                before == self@,
                unique_voters(before),
                forall|j: int| 0 <= j < i ==> #[trigger] before[j].0 != subject_id@,
            decreases entries@.len() - i,
        {
            if entries[i].0 == subject_id {
                let ghost old_votes = entries@;
                entries.set(i, (subject_id, choice));
                proof {
                    let after = votes_view(entries@);
                    assert(before[i as int].0 == subject_id@);
                    assert(after =~= before.update(i as int, (subject_id@, choice@)));
                    assert forall|k: int| 0 <= k < after.len() implies #[trigger] after[k].0
                        == before[k].0 by {}
                    assert(unique_voters(after));
                    assert(ballot(after) =~= ballot(before).insert(subject_id@, choice@)) by {
                        assert forall|s: UntypedId|
                            ballot(after).contains_key(s) implies ballot(after)[s] == ballot(
                                before,
                            ).insert(subject_id@, choice@)[s] by {
                            let k = choose|k: int| 0 <= k < after.len() && after[k].0 == s;
                            assert(before[k].0 == s);
                            if s == subject_id@ {
                                assert(k == i);
                            } else {
                                assert(k != i);
                                let m = choose|m: int| 0 <= m < before.len() && before[m].0 == s;
                                assert(m == k);
                            }
                        }
                        assert forall|s: UntypedId|
                            ballot(before).insert(subject_id@, choice@).contains_key(
                                s,
                            ) implies ballot(after).contains_key(s) by {
                            if s == subject_id@ {
                                assert(after[i as int].0 == s);
                            } else {
                                let m = choose|m: int| 0 <= m < before.len() && before[m].0 == s;
                                assert(after[m].0 == s);
                            }
                        }
                    }
                }
                return Ballot { entries };
            }
            i = i + 1;
        }
        entries.push((subject_id, choice));
        proof {
            let after = votes_view(entries@);
            assert(after =~= before.push((subject_id@, choice@)));
            assert(ballot(after) =~= ballot(before).insert(subject_id@, choice@)) by {
                assert forall|s: UntypedId|
                    ballot(after).contains_key(s) implies ballot(after)[s] == ballot(before).insert(
                        subject_id@,
                        choice@,
                    )[s] by {
                    let k = choose|k: int| 0 <= k < after.len() && after[k].0 == s;
                    if s == subject_id@ {
                        assert(k == before.len());
                    } else {
                        let m = choose|m: int| 0 <= m < before.len() && before[m].0 == s;
                        assert(after[m].0 == s);
                        assert(m == k);
                    }
                }
                assert forall|s: UntypedId|
                    ballot(before).insert(subject_id@, choice@).contains_key(s) implies ballot(
                        after,
                    ).contains_key(s) by {
                    if s == subject_id@ {
                        assert(after[before.len() as int].0 == s);
                    } else {
                        let m = choose|m: int| 0 <= m < before.len() && before[m].0 == s;
                        assert(after[m].0 == s);
                    }
                }
            }
        }
        Ballot { entries }
    }

    /// Counts the votes for each choice.
    pub fn tally(&self) -> (r: VoteSummary)
        ensures
            is_tally_of(tally_view(r.tally@), choices_of(self@)),
    {
        let ghost choices = choices_of(votes_view(self.entries@));
        let mut tally: Vec<(String, u64)> = Vec::new();
        let mut i: usize = 0;
        while i < self.entries.len()
            invariant
                0 <= i <= self.entries@.len(),
                choices == choices_of(votes_view(self.entries@)),
                is_tally_of(tally_view(tally@), choices.subrange(0, i as int)),
            decreases self.entries@.len() - i,
        {
            let choice = &self.entries[i].1;
            let ghost prefix = choices.subrange(0, i as int);
            proof {
                assert(choices.subrange(0, i + 1) =~= prefix.push(choice@));
                assert forall|c: Seq<char>|
                    count_of(choices.subrange(0, i + 1), c) == count_of(prefix, c) + if choice@
                        == c {
                        1nat
                    } else {
                        0nat
                    } by {
                    lemma_count_push(prefix, choice@, c);
                }
                lemma_count_bound(prefix, choice@);
            }
            let mut j: usize = 0;
            while j < tally.len()
                invariant
                    0 <= j <= tally@.len(),
                    forall|k: int| 0 <= k < j ==> #[trigger] tally_view(tally@)[k].0 != choice@,
                ensures
                    0 <= j <= tally@.len(),
                    forall|k: int| 0 <= k < j ==> #[trigger] tally_view(tally@)[k].0 != choice@,
                    j < tally@.len() ==> tally_view(tally@)[j as int].0 == choice@,
                decreases tally@.len() - j,
            {
                if tally[j].0 == *choice {
                    break;
                }
                j = j + 1;
            }
            let found = j < tally.len();
            let ghost old_tally = tally_view(tally@);
            if found {
                let n = tally[j].1;
                proof {
                    assert(old_tally[j as int] == (tally@[j as int].0@, tally@[j as int].1));
                    assert(is_tally_of(old_tally, prefix));
                    assert(old_tally[j as int].1 == count_of(prefix, old_tally[j as int].0));
                    assert(n == count_of(prefix, choice@));
                }
                tally.set(j, (choice.clone(), n + 1));
                proof {
                    let t = tally_view(tally@);
                    assert(t =~= old_tally.update(j as int, (choice@, (n + 1) as u64)));
                    let next = choices.subrange(0, i + 1);
                    assert forall|c: Seq<char>| #[trigger] count_of(next, c) > 0 implies exists|
                        k: int,
                    | 0 <= k < t.len() && t[k].0 == c by {
                        if c != choice@ {
                            assert(count_of(next, c) == count_of(prefix, c));
                            assert(count_of(prefix, c) > 0);
                            let k = choose|k: int| 0 <= k < old_tally.len() && old_tally[k].0 == c;
                            assert(t[k].0 == c);
                        } else {
                            assert(t[j as int].0 == c);
                        }
                    }
                }
            } else {
                tally.push((choice.clone(), 1));
                proof {
                    let t = tally_view(tally@);
                    assert(t =~= old_tally.push((choice@, 1u64)));
                    assert(count_of(prefix, choice@) == 0) by {
                        if count_of(prefix, choice@) > 0 {
                            let k = choose|k: int|
                                0 <= k < old_tally.len() && old_tally[k].0 == choice@;
                        }
                    }
                    let next = choices.subrange(0, i + 1);
                    assert forall|c: Seq<char>| #[trigger] count_of(next, c) > 0 implies exists|
                        k: int,
                    | 0 <= k < t.len() && t[k].0 == c by {
                        if c != choice@ {
                            assert(count_of(next, c) == count_of(prefix, c));
                            assert(count_of(prefix, c) > 0);
                            let k = choose|k: int| 0 <= k < old_tally.len() && old_tally[k].0 == c;
                            assert(t[k].0 == c);
                        } else {
                            assert(t[old_tally.len() as int].0 == c);
                        }
                    }
                }
            }
            i = i + 1;
        }
        proof {
            assert(choices.subrange(0, self.entries@.len() as int) =~= choices);
        }
        VoteSummary { tally }
    }
}

impl View for Ballot {
    type V = Seq<(UntypedId, Seq<char>)>;

    closed spec fn view(&self) -> Seq<(UntypedId, Seq<char>)> {
        votes_view(self.entries@)
    }
}

impl Poll {
    /// A new poll named `name`, never saved, with no votes.
    pub fn create(idgen: &IdGen, name: String) -> (r: Poll)
        ensures
            r.meta.version.0 == 0,
            r.name@ == name@,
            r.votes@.len() == 0,
    {
        let meta = DocMeta::new_with_id(idgen.generate());
        Poll { meta, name, votes: Ballot::new() }
    }

    /// Records that `subject_id` chose `choice`, replacing an earlier choice of
    /// the same subject.
    pub fn record_vote(&mut self, subject_id: Id<Subject>, choice: String)
        ensures
            ballot(final(self).votes@) == ballot(old(self).votes@).insert(subject_id@, choice@),
            final(self).meta.id@ == old(self).meta.id@,
            final(self).meta.version == old(self).meta.version,
            final(self).name@ == old(self).name@,
    {
        let mut votes = Ballot::new();
        std::mem::swap(&mut self.votes, &mut votes);
        self.votes = votes.record(subject_id, choice);
    }

    /// Counts the votes for each choice.
    pub fn tally(&self) -> (r: VoteSummary)
        ensures
            is_tally_of(tally_view(r.tally@), choices_of(self.votes@)),
    {
        self.votes.tally()
    }
}

impl<S> Polls<S> {
    /// The polls kept in `store`, with identifiers from `idgen`.
    pub fn new(idgen: IdGen, store: S) -> (r: Polls<S>)
        ensures
            r.store == store,
    {
        Polls { idgen, store }
    }
}

} // verus!
