use crate::approval::{views, Approval, ApprovalView};
use crate::ed25519::{signature_accepted, verify};
use crate::subject::{Subject, SubjectView};
use vstd::prelude::*;
use vstd::seq_lib::*;

verus! {

/// Ballots that may be counted, and the subject they are about.
///
/// An [`Approval`] is an inert record: `approver` is whatever bytes its
/// author put there. What makes one evidence happens outside the record --
/// the IC authenticated the caller who submitted it, or its signature
/// verified against the approver's key -- so counting goes through this
/// type, and choosing a constructor says which of the two is relied on.
/// The subject is part of the value because a signature is only ever
/// evidence about one subject; [`tally_checked`](crate::tally_checked)
/// refuses to count a `Ballots` against another.
#[derive(Clone, Debug, PartialEq, Eq)]
pub struct Ballots {
    subject: Subject,
    kept: Vec<Approval>,
    rejected: Vec<Approval>,
}

/// The records whose signature verifies for `subject`, in order.
pub open spec fn accepted_records(subject: SubjectView, records: Seq<ApprovalView>) -> Seq<
    ApprovalView,
> {
    records.filter(|a: ApprovalView| signature_accepted(subject, a))
}

/// The records whose signature is missing or does not verify, in order.
pub open spec fn refused_records(subject: SubjectView, records: Seq<ApprovalView>) -> Seq<
    ApprovalView,
> {
    records.filter(|a: ApprovalView| !signature_accepted(subject, a))
}

impl Ballots {
    /// The subject these ballots are about.
    pub closed spec fn about(&self) -> SubjectView {
        self.subject@
    }

    /// The records that will be counted, in order.
    pub closed spec fn kept_views(&self) -> Seq<ApprovalView> {
        views(self.kept@)
    }

    /// The records set aside, in the order they came in.
    pub closed spec fn rejected_views(&self) -> Seq<ApprovalView> {
        views(self.rejected@)
    }

    /// Keep the records that carry a signature valid for `subject`, and
    /// set every other record aside in [`Ballots::rejected`]. A record with
    /// no signature is set aside too: nothing here can tell an honest
    /// unsigned record from one an attacker typed.
    pub fn verified(subject: &Subject, records: Vec<Approval>) -> (b: Ballots)
        ensures
            b.about() == subject@,
            b.kept_views() == accepted_records(subject@, views(records@)),
            b.rejected_views() == refused_records(subject@, views(records@)),
            b.kept_views().len() + b.rejected_views().len() == records@.len(),
    {
        let mut b = Ballots::empty(subject);
        let ghost rs = views(records@);
        let ghost acc = |a: ApprovalView| signature_accepted(subject@, a);
        let ghost rej = |a: ApprovalView| !signature_accepted(subject@, a);
        let n = records.len();
        for i in 0..n
            invariant
                n == records@.len(),
                rs == views(records@),
                acc == (|a: ApprovalView| signature_accepted(subject@, a)),
                rej == (|a: ApprovalView| !signature_accepted(subject@, a)),
                b.subject@ == subject@,
                views(b.kept@) == rs.take(i as int).filter(acc),
                views(b.rejected@) == rs.take(i as int).filter(rej),
                b.kept@.len() + b.rejected@.len() == i,
        {
            let r = records[i].copy_of();
            proof {
                assert(rs.take(i + 1) =~= rs.take(i as int).push(rs[i as int]));
                rs.take(i as int).lemma_filter_push(rs[i as int], acc);
                rs.take(i as int).lemma_filter_push(rs[i as int], rej);
            }
            let ok = match &r.signature {
                Some(_) => verify(subject, &r).is_ok(),
                None => false,
            };
            assert(r@ == rs[i as int]);
            assert(acc(rs[i as int]) == ok);
            assert(rej(rs[i as int]) == !ok);
            if ok {
                b.kept.push(r);
                assert(views(b.kept@) =~= rs.take(i as int).filter(acc).push(rs[i as int]));
            } else {
                b.rejected.push(r);
                assert(views(b.rejected@) =~= rs.take(i as int).filter(rej).push(rs[i as int]));
            }
        }
        assert(rs.take(n as int) =~= rs);
        b
    }

    /// Take the records as they are, checking nothing. For a canister whose
    /// approvers are the authenticated callers of its update calls, and for
    /// reading back a store that [`record`](crate::record) wrote. The name
    /// is the warning: this asserts a fact the type cannot check.
    pub fn assume_checked(subject: &Subject, records: Vec<Approval>) -> (b: Ballots)
        ensures
            b.about() == subject@,
            b.kept_views() == views(records@),
            b.rejected_views().len() == 0,
    {
        Ballots { subject: subject.copy_of(), kept: records, rejected: Vec::new() }
    }

    fn empty(subject: &Subject) -> (b: Ballots)
        ensures
            b.subject@ == subject@,
            b.kept@.len() == 0,
            b.rejected@.len() == 0,
    {
        Ballots { subject: subject.copy_of(), kept: Vec::new(), rejected: Vec::new() }
    }

    /// What these ballots are about, as set by the constructor.
    pub fn subject(&self) -> (s: &Subject)
        ensures
            s@ == self.about(),
    {
        &self.subject
    }

    /// The records that will be counted.
    pub fn as_slice(&self) -> (s: &[Approval])
        ensures
            views(s@) == self.kept_views(),
    {
        self.kept.as_slice()
    }

    /// The records [`Ballots::verified`] threw out, in the order they came in.
    pub fn rejected(&self) -> (s: &[Approval])
        ensures
            views(s@) == self.rejected_views(),
    {
        self.rejected.as_slice()
    }

    /// The records that will be counted, by value.
    pub fn into_vec(self) -> (v: Vec<Approval>)
        ensures
            views(v@) == self.kept_views(),
    {
        self.kept
    }

    /// How many records will be counted. Not the number of approvers.
    pub fn len(&self) -> (n: usize)
        ensures
            n == self.kept_views().len(),
    {
        self.kept.len()
    }

    /// Whether there is nothing to count.
    pub fn is_empty(&self) -> (empty: bool)
        ensures
            empty == (self.kept_views().len() == 0),
    {
        self.kept.len() == 0
    }
}

} // verus!
