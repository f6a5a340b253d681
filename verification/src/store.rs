use crate::approval::{views, Approval, ApprovalView};
use crate::ballots::Ballots;
use crate::ed25519::{signature_accepted, verify};
use crate::policy::{excess_message, Policy};
use crate::subject::{Subject, SubjectView};
use crate::tally::{
    cast, cast_result, expected_tally, lemma_cast_result_len, newer_exists, tally_checked, Tally,
};
use crate::Error;
use vstd::prelude::*;

verus! {

/// Where ballots live. A canister implements this over a stable map keyed
/// by [`Subject::key`]; tests use [`MemoryStore`].
///
/// A store holds only what [`record`] put there: `record` checks each
/// ballot on the way in and then counts what comes back out without
/// checking it again. A read gives back, in order, what the last write for
/// that subject wrote, and a write for one subject leaves the others alone.
pub trait Store {
    /// The ballots held for `subject`, in order; none for an unknown subject.
    spec fn held(&self, subject: SubjectView) -> Seq<ApprovalView>;

    /// Every ballot recorded against `subject`. An unknown subject has none,
    /// which is an empty vector, not an error.
    fn load(&self, subject: &Subject) -> (ballots: Vec<Approval>)
        ensures
            views(ballots@) == self.held(subject@),
    ;

    /// Replace the ballots for `subject` with `ballots`.
    fn save(&mut self, subject: &Subject, ballots: Vec<Approval>)
        ensures
            final(self).held(subject@) == views(ballots@),
            forall|s: SubjectView| s != subject@ ==> final(self).held(s) == old(self).held(s),
    ;
}

/// A [`Store`] in memory, for tests and for host-side verifiers that tally
/// a collected set of signed approvals without persisting anything. Each
/// subject's ballots sit in the first entry for that subject.
#[derive(Debug)]
pub struct MemoryStore(Vec<(Subject, Vec<Approval>)>);

/// The ballots of the first entry for `s`, or none.
pub open spec fn held_in(entries: Seq<(Subject, Vec<Approval>)>, s: SubjectView) -> Seq<
    ApprovalView,
>
    decreases entries.len(),
{
    if entries.len() == 0 {
        seq![]
    } else if entries[0].0@ == s {
        views(entries[0].1@)
    } else {
        held_in(entries.drop_first(), s)
    }
}

/// The first entry for `s` is the one at `j`.
proof fn lemma_held_at(entries: Seq<(Subject, Vec<Approval>)>, s: SubjectView, j: int)
    requires
        0 <= j < entries.len(),
        entries[j].0@ == s,
        forall|k: int| 0 <= k < j ==> entries[k].0@ != s,
    ensures
        held_in(entries, s) == views(entries[j].1@),
    decreases j,
{
    if j > 0 {
        lemma_held_at(entries.drop_first(), s, j - 1);
    }
}

/// No entry is for `s`.
proof fn lemma_held_none(entries: Seq<(Subject, Vec<Approval>)>, s: SubjectView)
    requires
        forall|k: int| 0 <= k < entries.len() ==> entries[k].0@ != s,
    ensures
        held_in(entries, s) == Seq::<ApprovalView>::empty(),
    decreases entries.len(),
{
    if entries.len() > 0 {
        lemma_held_none(entries.drop_first(), s);
    }
}

/// Replacing an entry by one for the same subject changes nothing for
/// other subjects.
proof fn lemma_held_update(
    entries: Seq<(Subject, Vec<Approval>)>,
    j: int,
    e: (Subject, Vec<Approval>),
    s: SubjectView,
)
    requires
        0 <= j < entries.len(),
        entries[j].0@ == e.0@,
        s != e.0@,
    ensures
        held_in(entries.update(j, e), s) == held_in(entries, s),
    decreases j,
{
    let u = entries.update(j, e);
    if j > 0 {
        assert(u.drop_first() =~= entries.drop_first().update(j - 1, e));
        assert(u[0] == entries[0]);
        lemma_held_update(entries.drop_first(), j - 1, e, s);
    } else {
        assert(u.drop_first() =~= entries.drop_first());
        assert(u[0] == e);
    }
}

/// Appending an entry for one subject changes nothing for other subjects.
proof fn lemma_held_push(entries: Seq<(Subject, Vec<Approval>)>, e: (Subject, Vec<Approval>), s: SubjectView)
    requires
        s != e.0@,
    ensures
        held_in(entries.push(e), s) == held_in(entries, s),
    decreases entries.len(),
{
    let p = entries.push(e);
    if entries.len() > 0 {
        assert(p.drop_first() =~= entries.drop_first().push(e));
        assert(p[0] == entries[0]);
        lemma_held_push(entries.drop_first(), e, s);
    } else {
        assert(p.drop_first() =~= Seq::<(Subject, Vec<Approval>)>::empty());
        assert(p[0] == e);
        assert(held_in(p.drop_first(), s) == Seq::<ApprovalView>::empty());
    }
}

/// A copy of a list of approvals with the same views.
fn copy_list(list: &Vec<Approval>) -> (c: Vec<Approval>)
    ensures
        views(c@) == views(list@),
{
    let mut c: Vec<Approval> = Vec::new();
    let n = list.len();
    for i in 0..n
        invariant
            n == list@.len(),
            views(c@) == views(list@).take(i as int),
    {
        let ghost prev = c@;
        let a = list[i].copy_of();
        c.push(a);
        assert(c@ =~= prev.push(a));
        assert(views(c@) =~= views(prev).push(a@));
        assert(views(list@).take(i + 1) =~= views(list@).take(i as int).push(views(list@)[i as int]));
    }
    assert(views(list@).take(n as int) =~= views(list@));
    c
}

impl MemoryStore {
    /// The position of the first entry for `subject`, if any.
    fn position(&self, subject: &Subject) -> (p: Option<usize>)
        ensures
            match p {
                Some(j) => j < self.0@.len() && self.0@[j as int].0@ == subject@ && forall|k: int|
                    0 <= k < j ==> self.0@[k].0@ != subject@,
                None => forall|k: int| 0 <= k < self.0@.len() ==> self.0@[k].0@ != subject@,
            },
    {
        let n = self.0.len();
        for j in 0..n
            invariant
                n == self.0@.len(),
                forall|k: int| 0 <= k < j ==> self.0@[k].0@ != subject@,
        {
            if self.0[j].0.same_as(subject) {
                return Some(j);
            }
        }
        None
    }
}

impl Store for MemoryStore {
    closed spec fn held(&self, subject: SubjectView) -> Seq<ApprovalView> {
        held_in(self.0@, subject)
    }

    fn load(&self, subject: &Subject) -> (ballots: Vec<Approval>) {
        match self.position(subject) {
            Some(j) => {
                proof {
                    lemma_held_at(self.0@, subject@, j as int);
                }
                copy_list(&self.0[j].1)
            },
            None => {
                proof {
                    lemma_held_none(self.0@, subject@);
                }
                let v: Vec<Approval> = Vec::new();
                assert(views(v@) =~= Seq::<ApprovalView>::empty());
                v
            },
        }
    }

    fn save(&mut self, subject: &Subject, ballots: Vec<Approval>) {
        let ghost before = self.0@;
        let e = (subject.copy_of(), ballots);
        match self.position(subject) {
            Some(j) => {
                self.0.set(j, e);
                proof {
                    assert(self.0@ == before.update(j as int, e));
                    lemma_held_at(self.0@, subject@, j as int);
                    assert forall|s: SubjectView| s != subject@ implies held_in(self.0@, s)
                        == held_in(before, s) by {
                        lemma_held_update(before, j as int, e, s);
                    }
                }
            },
            None => {
                self.0.push(e);
                proof {
                    assert(self.0@ == before.push(e));
                    lemma_held_at(self.0@, subject@, before.len() as int);
                    assert forall|s: SubjectView| s != subject@ implies held_in(self.0@, s)
                        == held_in(before, s) by {
                        lemma_held_push(before, e, s);
                    }
                }
            },
        }
    }
}

impl Default for MemoryStore {
    /// An empty store: no subject has any ballot.
    fn default() -> (m: MemoryStore)
        ensures
            forall|s: SubjectView| #[trigger] m.held(s) == Seq::<ApprovalView>::empty(),
    {
        let m = MemoryStore(Vec::new());
        assert forall|s: SubjectView| #[trigger] m.held(s) == Seq::<ApprovalView>::empty() by {
            lemma_held_none(m.0@, s);
        }
        m
    }
}

/// Validate an approval against the policy, persist it, and return the new
/// tally. This is the one entry point a canister endpoint should call. In
/// order, it refuses a malformed policy, an approver the policy does not
/// name, an unsigned approval under a policy that requires signatures, a
/// signature that does not verify, and a ballot older than the approver's
/// recorded one. Otherwise the ballot replaces the approver's earlier one,
/// the list is saved, and the count of the saved list is returned.
pub fn record<S: Store>(store: &mut S, policy: &Policy, subject: &Subject, approval: Approval) -> (r:
    Result<Tally, Error>)
    requires
        old(store).held(subject@).len() < u32::MAX,
    ensures
        ({
            let a = approval@;
            let before = old(store).held(subject@);
            let sized = policy.threshold <= policy.members().len();
            let member = policy.members().contains(a.approver);
            let signed_ok = match a.signature {
                None => !policy.require_signature,
                Some(_) => signature_accepted(subject@, a),
            };
            &&& r is Ok <==> sized && member && signed_ok && !newer_exists(before, a)
            &&& !sized ==> (r matches Err(Error::InvalidPolicy(m)) && m@ == excess_message(
                policy.threshold as nat,
                policy.members().len(),
            ))
            &&& sized && !member ==> r == Err::<Tally, Error>(Error::NotAnApprover)
            &&& sized && member && a.signature is None && policy.require_signature ==> r == Err::<
                Tally,
                Error,
            >(Error::MissingSignature)
            &&& sized && member && a.signature is Some && !signature_accepted(subject@, a) ==> r
                == Err::<Tally, Error>(Error::InvalidSignature)
            &&& sized && member && signed_ok && newer_exists(before, a) ==> r == Err::<
                Tally,
                Error,
            >(Error::Superseded)
            &&& r is Err ==> *final(store) == *old(store)
            &&& r matches Ok(t) ==> {
                &&& final(store).held(subject@) == cast_result(before, a)
                &&& forall|s: SubjectView|
                    s != subject@ ==> final(store).held(s) == old(store).held(s)
                &&& t@ == expected_tally(
                    *policy,
                    subject@,
                    subject@,
                    cast_result(before, a),
                    Seq::empty(),
                )
            }
        }),
{
    match policy.validate() {
        Ok(()) => {},
        Err(e) => {
            return Err(e);
        },
    }
    if !policy.is_approver(&approval.approver) {
        return Err(Error::NotAnApprover);
    }
    match &approval.signature {
        None => {
            if policy.require_signature {
                return Err(Error::MissingSignature);
            }
        },
        Some(_) => {
            match verify(subject, &approval) {
                Ok(()) => {},
                Err(e) => {
                    return Err(e);
                },
            }
        },
    }
    let mut ballots = store.load(subject);
    if !cast(&mut ballots, approval) {
        return Err(Error::Superseded);
    }
    proof {
        lemma_cast_result_len(old(store).held(subject@), approval@);
    }
    let checked = Ballots::assume_checked(subject, ballots);
    let t = tally_checked(policy, subject, &checked);
    store.save(subject, checked.into_vec());
    Ok(t)
}

} // verus!
