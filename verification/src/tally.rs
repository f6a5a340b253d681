use crate::approval::{views, Approval, ApprovalView, Approver, Decision};
use crate::ballots::{accepted_records, refused_records, Ballots};
use crate::policy::Policy;
use crate::subject::{Subject, SubjectView};
use vstd::prelude::*;
use vstd::seq_lib::*;
use vstd::set::*;

verus! {

/// The count for one subject under one policy.
#[derive(Clone, Copy, PartialEq, Eq, Structural, Debug)]
pub struct Tally {
    /// Approvals from approvers currently in the policy.
    pub approvals: u32,
    /// Rejections from approvers currently in the policy.
    pub rejections: u32,
    /// Ballots that no longer count: their approver left the policy.
    pub ignored: u32,
    /// Records thrown out before counting: a signature that did not
    /// verify, or none at all under a policy that requires one. Counted
    /// per record rather than per approver.
    pub invalid: u32,
    /// The policy's threshold at the time of the count.
    pub required: u32,
    /// `approvals >= required`. Rejections do not block.
    pub reached: bool,
}

/// A tally as the contracts see it.
pub struct TallyView {
    pub approvals: nat,
    pub rejections: nat,
    pub ignored: nat,
    pub invalid: nat,
    pub required: nat,
    pub reached: bool,
}

impl View for Tally {
    type V = TallyView;

    open spec fn view(&self) -> TallyView {
        TallyView {
            approvals: self.approvals as nat,
            rejections: self.rejections as nat,
            ignored: self.ignored as nat,
            invalid: self.invalid as nat,
            required: self.required as nat,
            reached: self.reached,
        }
    }
}

/// Whether the policy's own signature rule lets `b` be counted at all.
pub open spec fn admissible(require_signature: bool, b: ApprovalView) -> bool {
    !(require_signature && b.signature is None)
}

/// The records that may take part in the latest-ballot rule, in order.
pub open spec fn candidates(require_signature: bool, kept: Seq<ApprovalView>) -> Seq<ApprovalView> {
    kept.filter(|b: ApprovalView| admissible(require_signature, b))
}

/// The ballot each approver is counted by. Going through the list in
/// order, a ballot replaces the one held for its approver unless the held
/// one is strictly newer: each approver ends with a ballot of the highest
/// `at_ns`, the later one in the list on a tie.
pub open spec fn latest(ballots: Seq<ApprovalView>) -> Map<Seq<u8>, ApprovalView>
    decreases ballots.len(),
{
    if ballots.len() == 0 {
        Map::empty()
    } else {
        let held = latest(ballots.drop_last());
        let b = ballots.last();
        if held.contains_key(b.approver) && held[b.approver].at_ns > b.at_ns {
            held
        } else {
            held.insert(b.approver, b)
        }
    }
}

/// Identities in the policy whose counted ballot approves.
pub open spec fn approving(members: Set<Seq<u8>>, held: Map<Seq<u8>, ApprovalView>) -> spec_fn(
    Seq<u8>,
) -> bool {
    |k: Seq<u8>| members.contains(k) && held[k].decision == Decision::Approve
}

/// Identities in the policy whose counted ballot rejects.
pub open spec fn rejecting(members: Set<Seq<u8>>, held: Map<Seq<u8>, ApprovalView>) -> spec_fn(
    Seq<u8>,
) -> bool {
    |k: Seq<u8>| members.contains(k) && held[k].decision == Decision::Reject
}

/// Identities the policy does not name.
pub open spec fn outside(members: Set<Seq<u8>>) -> spec_fn(Seq<u8>) -> bool {
    |k: Seq<u8>| !members.contains(k)
}

/// The tally of `kept` and `refused` records about `about`, counted under
/// `policy` for the subject `asked`. Asked about another subject, nothing is
/// counted, every record is invalid, and the threshold is not reached.
pub open spec fn expected_tally(
    policy: Policy,
    asked: SubjectView,
    about: SubjectView,
    kept: Seq<ApprovalView>,
    refused: Seq<ApprovalView>,
) -> TallyView {
    if asked != about {
        TallyView {
            approvals: 0,
            rejections: 0,
            ignored: 0,
            invalid: kept.len() + refused.len(),
            required: policy.threshold as nat,
            reached: false,
        }
    } else {
        let cands = candidates(policy.require_signature, kept);
        let held = latest(cands);
        let approvals = held.dom().filter(approving(policy.members(), held)).len();
        TallyView {
            approvals,
            rejections: held.dom().filter(rejecting(policy.members(), held)).len(),
            ignored: held.dom().filter(outside(policy.members())).len(),
            invalid: refused.len() + (kept.len() - cands.len()) as nat,
            required: policy.threshold as nat,
            reached: approvals >= policy.threshold,
        }
    }
}

/// Under no signature rule every record takes part in the latest-ballot
/// rule, and so does every record that carries a signature.
pub proof fn lemma_signed_or_unruled_all_take_part(require_signature: bool, kept: Seq<ApprovalView>)
    ensures
        (!require_signature || forall|i: int|
            0 <= i < kept.len() ==> (#[trigger] kept[i]).signature is Some) ==> candidates(
            require_signature,
            kept,
        ) == kept,
    decreases kept.len(),
{
    let adm = |b: ApprovalView| admissible(require_signature, b);
    reveal(Seq::filter);
    if kept.len() > 0 {
        let init = kept.drop_last();
        assert(kept =~= init.push(kept.last()));
        lemma_signed_or_unruled_all_take_part(require_signature, init);
        if !require_signature || forall|i: int|
            0 <= i < kept.len() ==> (#[trigger] kept[i]).signature is Some {
            assert forall|i: int| 0 <= i < init.len() implies (#[trigger] init[i]).signature is Some
                || !require_signature by {
                assert(init[i] == kept[i]);
            }
            assert(adm(kept.last()));
            init.lemma_filter_push(kept.last(), adm);
        }
    }
}

/// The approvers of the ballots at positions `idx` of `kv`.
pub open spec fn holder_keys(kv: Seq<ApprovalView>, idx: Seq<usize>) -> Seq<Seq<u8>> {
    idx.map_values(|j: usize| kv[j as int].approver)
}

/// In a list without repeats, counting the entries that satisfy `p` counts
/// the members of its set that do.
proof fn lemma_distinct_count<A>(s: Seq<A>, p: spec_fn(A) -> bool)
    requires
        s.no_duplicates(),
    ensures
        s.filter(p).len() == s.to_set().filter(p).len(),
    decreases s.len(),
{
    broadcast use group_set_axioms;

    if s.len() == 0 {
        reveal(Seq::filter);
        assert(s.to_set() =~= Set::empty());
        assert(s.to_set().filter(p) =~= Set::empty());
    } else {
        let init = s.drop_last();
        let x = s.last();
        assert(s =~= init.push(x));
        assert(init.no_duplicates());
        lemma_distinct_count(init, p);
        init.lemma_filter_push(x, p);
        init.lemma_push_to_set_commute(x);
        seq_to_set_is_finite(init);
        assert(!init.to_set().contains(x)) by {
            if init.contains(x) {
                let k = choose|k: int| 0 <= k < init.len() && init[k] == x;
                assert(s[k] == s[s.len() - 1]);
            }
        }
        if p(x) {
            assert(init.to_set().insert(x).filter(p) =~= init.to_set().filter(p).insert(x));
        } else {
            assert(init.to_set().insert(x).filter(p) =~= init.to_set().filter(p));
        }
    }
}

/// Where in `idx` the ballot of `who` is held, if anywhere.
fn find_holder(kept: &[Approval], idx: &Vec<usize>, who: &Approver) -> (p: Option<usize>)
    requires
        forall|j: int| 0 <= j < idx@.len() ==> idx@[j] < kept@.len(),
    ensures
        match p {
            Some(p) => p < idx@.len() && holder_keys(views(kept@), idx@)[p as int] == who@,
            None => forall|j: int|
                0 <= j < idx@.len() ==> holder_keys(views(kept@), idx@)[j] != who@,
        },
{
    let ghost keys = holder_keys(views(kept@), idx@);
    let n = idx.len();
    for p in 0..n
        invariant
            n == idx@.len(),
            keys == holder_keys(views(kept@), idx@),
            forall|j: int| 0 <= j < idx@.len() ==> idx@[j] < kept@.len(),
            forall|j: int| 0 <= j < p ==> keys[j] != who@,
    {
        if kept[idx[p]].approver.same_as(who) {
            return Some(p);
        }
    }
    None
}

/// Run the latest-ballot rule over the records the policy's signature rule
/// admits: the positions of the ballots held, one per approver, and how
/// many records the rule dropped.
fn latest_ballots(kept: &[Approval], require_signature: bool) -> (r: (Vec<usize>, usize))
    ensures
        ({
            let kv = views(kept@);
            let held = latest(candidates(require_signature, kv));
            let keys = holder_keys(kv, r.0@);
            &&& r.1 == kv.len() - candidates(require_signature, kv).len()
            &&& r.0@.len() <= kv.len()
            &&& forall|j: int| 0 <= j < r.0@.len() ==> r.0@[j] < kv.len()
            &&& keys.no_duplicates()
            &&& keys.to_set() == held.dom()
            &&& forall|j: int| 0 <= j < r.0@.len() ==> held[keys[j]] == kv[r.0@[j] as int]
        }),
{
    let ghost kv = views(kept@);
    let ghost adm = |b: ApprovalView| admissible(require_signature, b);
    let mut idx: Vec<usize> = Vec::new();
    let mut dropped: usize = 0;
    let n = kept.len();
    proof {
        reveal(Seq::filter);
        assert(kv.take(0).filter(adm) =~= Seq::<ApprovalView>::empty());
        assert(holder_keys(kv, idx@).to_set() =~= Set::<Seq<u8>>::empty());
    }
    for i in 0..n
        invariant
            n == kv.len(),
            kv == views(kept@),
            adm == (|b: ApprovalView| admissible(require_signature, b)),
            dropped + kv.take(i as int).filter(adm).len() == i,
            idx@.len() <= i,
            forall|j: int| 0 <= j < idx@.len() ==> idx@[j] < i,
            holder_keys(kv, idx@).no_duplicates(),
            holder_keys(kv, idx@).to_set() == latest(kv.take(i as int).filter(adm)).dom(),
            forall|j: int|
                0 <= j < idx@.len() ==> latest(kv.take(i as int).filter(adm))[holder_keys(
                    kv,
                    idx@,
                )[j]] == kv[idx@[j] as int],
    {
        let ghost before = kv.take(i as int).filter(adm);
        let ghost held = latest(before);
        let ghost keys = holder_keys(kv, idx@);
        let ghost b = kv[i as int];
        proof {
            assert(kv.take(i + 1) =~= kv.take(i as int).push(b));
            kv.take(i as int).lemma_filter_push(b, adm);
            assert(kept@[i as int]@ == b);
        }
        if require_signature && kept[i].signature.is_none() {
            dropped = dropped + 1;
        } else {
            let ghost after = before.push(b);
            proof {
                assert(after.drop_last() =~= before);
            }
            match find_holder(kept, &idx, &kept[i].approver) {
                Some(p) => {
                    proof {
                        assert(keys.to_set().contains(keys[p as int]));
                    }
                    if kept[i].at_ns >= kept[idx[p]].at_ns {
                        idx.set(p, i);
                        proof {
                            assert(holder_keys(kv, idx@) =~= keys);
                            assert(held.insert(b.approver, b).dom() =~= held.dom());
                        }
                    }
                },
                None => {
                    proof {
                        assert(!keys.to_set().contains(b.approver));
                    }
                    idx.push(i);
                    proof {
                        assert(holder_keys(kv, idx@) =~= keys.push(b.approver));
                        keys.lemma_push_to_set_commute(b.approver);
                        assert(held.insert(b.approver, b).dom() =~= held.dom().insert(b.approver));
                        assert forall|x: int, y: int|
                            0 <= x < keys.len() + 1 && 0 <= y < keys.len() + 1 && x != y implies holder_keys(
                            kv,
                            idx@,
                        )[x] != holder_keys(kv, idx@)[y] by {
                            if x == keys.len() {
                                assert(keys.contains(keys[y]));
                            } else if y == keys.len() {
                                assert(keys.contains(keys[x]));
                            }
                        }
                    }
                },
            }
        }
    }
    proof {
        assert(kv.take(n as int) =~= kv);
    }
    (idx, dropped)
}

/// Count the held ballots: approvals and rejections from members, and
/// ballots from identities the policy does not name.
fn count_held(
    policy: &Policy,
    kept: &[Approval],
    idx: &Vec<usize>,
    Ghost(held): Ghost<Map<Seq<u8>, ApprovalView>>,
) -> (c: (u32, u32, u32))
    requires
        idx@.len() <= u32::MAX,
        forall|j: int| 0 <= j < idx@.len() ==> idx@[j] < kept@.len(),
        forall|j: int|
            0 <= j < idx@.len() ==> held[holder_keys(views(kept@), idx@)[j]] == views(
                kept@,
            )[idx@[j] as int],
    ensures
        ({
            let keys = holder_keys(views(kept@), idx@);
            &&& c.0 == keys.filter(approving(policy.members(), held)).len()
            &&& c.1 == keys.filter(rejecting(policy.members(), held)).len()
            &&& c.2 == keys.filter(outside(policy.members())).len()
        }),
{
    let ghost keys = holder_keys(views(kept@), idx@);
    let ghost pa = approving(policy.members(), held);
    let ghost pr = rejecting(policy.members(), held);
    let ghost po = outside(policy.members());
    let mut approvals: u32 = 0;
    let mut rejections: u32 = 0;
    let mut ignored: u32 = 0;
    let n = idx.len();
    proof {
        reveal(Seq::filter);
    }
    for j in 0..n
        invariant
            n == idx@.len(),
            n <= u32::MAX,
            keys == holder_keys(views(kept@), idx@),
            pa == approving(policy.members(), held),
            pr == rejecting(policy.members(), held),
            po == outside(policy.members()),
            forall|k: int| 0 <= k < idx@.len() ==> idx@[k] < kept@.len(),
            forall|k: int| 0 <= k < idx@.len() ==> held[keys[k]] == views(kept@)[idx@[k] as int],
            approvals == keys.take(j as int).filter(pa).len(),
            rejections == keys.take(j as int).filter(pr).len(),
            ignored == keys.take(j as int).filter(po).len(),
            approvals + rejections + ignored == j,
    {
        let a = &kept[idx[j]];
        proof {
            assert(keys.take(j + 1) =~= keys.take(j as int).push(keys[j as int]));
            keys.take(j as int).lemma_filter_push(keys[j as int], pa);
            keys.take(j as int).lemma_filter_push(keys[j as int], pr);
            keys.take(j as int).lemma_filter_push(keys[j as int], po);
            assert(keys[j as int] == a@.approver);
            assert(held[keys[j as int]] == a@);
        }
        if !policy.is_approver(&a.approver) {
            ignored = ignored + 1;
        } else if a.approves() {
            approvals = approvals + 1;
        } else {
            rejections = rejections + 1;
        }
    }
    proof {
        assert(keys.take(n as int) =~= keys);
    }
    (approvals, rejections, ignored)
}

/// Count ballots that have already been through the check, without
/// repeating it.
///
/// The policy's own rules still apply: an approver the policy does not
/// name is ignored, and under `require_signature` a record with no
/// signature is invalid however it got here. Refused records are dropped
/// before the latest-ballot rule runs, never after, so a record that cannot
/// count can never supersede one that can. Asked about a subject other than
/// the one the ballots were built against, the count refuses to answer:
/// nothing is counted and every record is invalid.
pub fn tally_checked(policy: &Policy, subject: &Subject, ballots: &Ballots) -> (t: Tally)
    requires
        ballots.kept_views().len() + ballots.rejected_views().len() <= u32::MAX,
    ensures
        t@ == expected_tally(
            *policy,
            subject@,
            ballots.about(),
            ballots.kept_views(),
            ballots.rejected_views(),
        ),
        t.required == policy.threshold,
        subject@ == ballots.about() ==> t.reached == (t.approvals >= policy.threshold),
        subject@ == ballots.about() && !policy.require_signature ==> t.invalid
            == ballots.rejected_views().len(),
        subject@ != ballots.about() ==> !t.reached && t.approvals == 0,
{
    proof {
        lemma_signed_or_unruled_all_take_part(policy.require_signature, ballots.kept_views());
    }
    let kept = ballots.as_slice();
    let refused = ballots.rejected().len();
    if !subject.same_as(ballots.subject()) {
        let total = kept.len() + refused;
        return Tally {
            approvals: 0,
            rejections: 0,
            ignored: 0,
            invalid: total as u32,
            required: policy.threshold,
            reached: false,
        };
    }
    let ghost kv = views(kept@);
    let ghost held = latest(candidates(policy.require_signature, kv));
    let (idx, dropped) = latest_ballots(kept, policy.require_signature);
    let ghost keys = holder_keys(kv, idx@);
    proof {
        candidates(policy.require_signature, kv).lemma_filter_len(
            |b: ApprovalView| admissible(policy.require_signature, b),
        );
    }
    let (approvals, rejections, ignored) = count_held(policy, kept, &idx, Ghost(held));
    proof {
        lemma_distinct_count(keys, approving(policy.members(), held));
        lemma_distinct_count(keys, rejecting(policy.members(), held));
        lemma_distinct_count(keys, outside(policy.members()));
    }
    let invalid = (refused + dropped) as u32;
    Tally {
        approvals,
        rejections,
        ignored,
        invalid,
        required: policy.threshold,
        reached: approvals >= policy.threshold,
    }
}

/// Count `ballots` under `policy`, verifying them against `subject` first:
/// only records whose signature verifies take part, each remaining approver
/// counts once, by their latest ballot, and approvers the policy does not
/// name are reported as ignored.
pub fn tally(policy: &Policy, subject: &Subject, ballots: &[Approval]) -> (t: Tally)
    requires
        ballots@.len() <= u32::MAX,
    ensures
        t@ == expected_tally(
            *policy,
            subject@,
            subject@,
            accepted_records(subject@, views(ballots@)),
            refused_records(subject@, views(ballots@)),
        ),
        t.required == policy.threshold,
        t.reached == (t.approvals >= policy.threshold),
        !policy.require_signature ==> t.invalid == refused_records(subject@, views(ballots@)).len(),
{
    let mut records: Vec<Approval> = Vec::new();
    let n = ballots.len();
    for i in 0..n
        invariant
            n == ballots@.len(),
            views(records@) == views(ballots@).take(i as int),
    {
        let ghost prev = records@;
        let c = ballots[i].copy_of();
        records.push(c);
        assert(records@ =~= prev.push(c));
        assert(views(records@) =~= views(prev).push(c@));
        assert(views(ballots@).take(i + 1) =~= views(ballots@).take(i as int).push(
            views(ballots@)[i as int],
        ));
    }
    assert(views(ballots@).take(n as int) =~= views(ballots@));
    let checked = Ballots::verified(subject, records);
    tally_checked(policy, subject, &checked)
}

/// Whether `ballots` holds a ballot by the same approver as `a` that is
/// strictly newer than `a`.
pub open spec fn newer_exists(ballots: Seq<ApprovalView>, a: ApprovalView) -> bool {
    exists|i: int| 0 <= i < ballots.len() && ballots[i].approver == a.approver && ballots[i].at_ns > a.at_ns
}

/// The ballots not cast by `who`, in order.
pub open spec fn others(ballots: Seq<ApprovalView>, who: Seq<u8>) -> Seq<ApprovalView> {
    ballots.filter(|b: ApprovalView| b.approver != who)
}

/// The list [`cast`] leaves: unchanged when a newer ballot by the same
/// approver is held, else every other approver's ballots followed by `a`.
pub open spec fn cast_result(ballots: Seq<ApprovalView>, a: ApprovalView) -> Seq<ApprovalView> {
    if newer_exists(ballots, a) {
        ballots
    } else {
        others(ballots, a.approver).push(a)
    }
}

/// Casting adds at most one ballot to a list.
pub(crate) proof fn lemma_cast_result_len(ballots: Seq<ApprovalView>, a: ApprovalView)
    ensures
        cast_result(ballots, a).len() <= ballots.len() + 1,
{
    ballots.lemma_filter_len(|b: ApprovalView| b.approver != a.approver);
}

/// Add a ballot to a list, replacing any earlier ballot by the same
/// approver. Returns `false` and leaves the list untouched when the
/// approver's existing ballot has a later `at_ns`: an old signed ballot
/// must not undo the signer's newer decision. Equal `at_ns` replaces, so
/// resubmitting the same ballot is idempotent.
///
/// This is list maintenance, not admission: `cast` does not know the policy
/// and does not look at a signature.
pub fn cast(ballots: &mut Vec<Approval>, approval: Approval) -> (accepted: bool)
    ensures
        accepted == !newer_exists(views(old(ballots)@), approval@),
        views(final(ballots)@) == cast_result(views(old(ballots)@), approval@),
        !accepted ==> *final(ballots) == *old(ballots),
{
    let ghost ov = views(ballots@);
    let n = ballots.len();
    for i in 0..n
        invariant
            n == ballots@.len(),
            ov == views(ballots@),
            forall|j: int|
                0 <= j < i ==> !(ov[j].approver == approval@.approver && ov[j].at_ns
                    > approval@.at_ns),
    {
        if ballots[i].approver.same_as(&approval.approver) && ballots[i].at_ns > approval.at_ns {
            assert(ov[i as int].approver == approval@.approver);
            return false;
        }
    }
    let ghost keep = |b: ApprovalView| b.approver != approval@.approver;
    let mut i: usize = 0;
    let ghost mut k: int = 0;
    proof {
        reveal(Seq::filter);
        assert(ov.take(0).filter(keep) =~= Seq::<ApprovalView>::empty());
        assert(views(ballots@).take(0) =~= Seq::<ApprovalView>::empty());
        assert(views(ballots@).skip(0) =~= ov.skip(0));
    }
    while i < ballots.len()
        invariant
            ov.len() == n,
            keep == (|b: ApprovalView| b.approver != approval@.approver),
            i <= ballots@.len(),
            0 <= k <= n,
            views(ballots@).take(i as int) == ov.take(k).filter(keep),
            views(ballots@).skip(i as int) == ov.skip(k),
        decreases ballots@.len() - i,
    {
        let ghost cur = views(ballots@);
        proof {
            assert(cur.skip(i as int).len() > 0);
            assert(ov.skip(k).len() > 0);
            assert(k < n);
            assert(ov.skip(k)[0] == cur.skip(i as int)[0]);
            assert(ov.take(k + 1) =~= ov.take(k).push(ov[k]));
            ov.take(k).lemma_filter_push(ov[k], keep);
            assert(cur[i as int] == ov[k]);
        }
        if ballots[i].approver.same_as(&approval.approver) {
            ballots.remove(i);
            proof {
                assert(views(ballots@).take(i as int) =~= cur.take(i as int));
                assert(views(ballots@).skip(i as int) =~= cur.skip(i + 1));
                assert(ov.skip(k + 1) =~= ov.skip(k).skip(1));
                assert(cur.skip(i + 1) =~= cur.skip(i as int).skip(1));
            }
        } else {
            i = i + 1;
            proof {
                assert(views(ballots@).take(i as int) =~= cur.take(i - 1).push(cur[i - 1]));
                assert(ov.skip(k + 1) =~= ov.skip(k).skip(1));
                assert(cur.skip(i as int) =~= cur.skip(i - 1).skip(1));
            }
        }
        proof {
            k = k + 1;
        }
    }
    proof {
        assert(views(ballots@).skip(i as int).len() == 0);
        assert(k == n);
        assert(ov.take(k) =~= ov);
        assert(views(ballots@) =~= views(ballots@).take(i as int));
    }
    let ghost filtered = views(ballots@);
    ballots.push(approval);
    assert(views(ballots@) =~= filtered.push(approval@));
    true
}

} // verus!
