//! What holds of the library as a whole: across calls, and of every list.

use crate::approval::{decision_byte, message_bytes, ApprovalView, Decision};
use crate::ballots::{accepted_records, refused_records};
use crate::ed25519::signature_accepted;
use crate::policy::{
    bytes_lt, lemma_lt_irreflexive, lemma_lt_transitive, strictly_sorted, Policy,
};
use crate::subject::{canonical_bytes, hex_digit, lower_hex, short_hash_input, SubjectView, DOMAIN};
use crate::tally::{
    admissible, approving, candidates, cast_result, expected_tally, latest, newer_exists, others,
    outside, rejecting,
};
use vstd::bytes::*;
use vstd::prelude::*;
use vstd::seq_lib::*;
use vstd::set::*;
use vstd::set_lib::*;
use vstd::utf8::*;

verus! {

/// The identities that cast the ballots in a list, in order.
pub open spec fn approvers_of(ballots: Seq<ApprovalView>) -> Seq<Seq<u8>> {
    ballots.map_values(|b: ApprovalView| b.approver)
}

/// Whether a list holds at most one ballot per approver.
pub open spec fn one_per_approver(ballots: Seq<ApprovalView>) -> bool {
    forall|i: int, j: int|
        0 <= i < ballots.len() && 0 <= j < ballots.len() && i != j ==> ballots[i].approver
            != ballots[j].approver
}

/// What the latest-ballot rule holds: one ballot for each approver in the
/// list, a ballot of that approver taken from the list, and none older
/// than any other ballot of theirs.
proof fn lemma_latest_facts(ballots: Seq<ApprovalView>)
    ensures
        latest(ballots).dom() == approvers_of(ballots).to_set(),
        forall|k: Seq<u8>| #[trigger]
            latest(ballots).contains_key(k) ==> latest(ballots)[k].approver == k
                && ballots.contains(latest(ballots)[k]),
        forall|i: int|
            0 <= i < ballots.len() ==> latest(ballots)[#[trigger] ballots[i].approver].at_ns
                >= ballots[i].at_ns,
    decreases ballots.len(),
{
    if ballots.len() == 0 {
        assert(approvers_of(ballots).to_set() =~= Set::<Seq<u8>>::empty());
    } else {
        let init = ballots.drop_last();
        let b = ballots.last();
        lemma_latest_facts(init);
        assert(ballots =~= init.push(b));
        assert(approvers_of(ballots) =~= approvers_of(init).push(b.approver));
        approvers_of(init).lemma_push_to_set_commute(b.approver);
        let held = latest(init);
        assert forall|k: Seq<u8>| #[trigger]
            latest(ballots).contains_key(k) implies latest(ballots)[k].approver == k
            && ballots.contains(latest(ballots)[k]) by {
            if held.contains_key(k) && latest(ballots)[k] == held[k] {
                let i = choose|i: int| 0 <= i < init.len() && init[i] == held[k];
                assert(ballots[i] == held[k]);
            } else {
                assert(ballots[ballots.len() - 1] == b);
            }
        }
        assert forall|i: int| 0 <= i < ballots.len() implies latest(
            ballots,
        )[#[trigger] ballots[i].approver].at_ns >= ballots[i].at_ns by {
            if i < ballots.len() - 1 {
                assert(ballots[i] == init[i]);
                assert(approvers_of(init)[i] == init[i].approver);
                assert(held.contains_key(init[i].approver));
            }
        }
        if held.contains_key(b.approver) && held[b.approver].at_ns > b.at_ns {
            assert(approvers_of(init).to_set().insert(b.approver) =~= held.dom());
        } else {
            assert(held.insert(b.approver, b).dom() =~= held.dom().insert(b.approver));
        }
    }
}

/// Dropping an approver's ballots from a list drops them from the count and
/// changes nothing else.
proof fn lemma_latest_others(ballots: Seq<ApprovalView>, who: Seq<u8>)
    ensures
        latest(others(ballots, who)) == latest(ballots).remove(who),
    decreases ballots.len(),
{
    let keep = |b: ApprovalView| b.approver != who;
    if ballots.len() == 0 {
        reveal(Seq::filter);
        assert(latest(ballots).remove(who) =~= Map::<Seq<u8>, ApprovalView>::empty());
    } else {
        let init = ballots.drop_last();
        let b = ballots.last();
        assert(ballots =~= init.push(b));
        lemma_latest_others(init, who);
        init.lemma_filter_push(b, keep);
        let held = latest(init);
        if b.approver == who {
            if held.contains_key(b.approver) && held[b.approver].at_ns > b.at_ns {
            } else {
                assert(held.insert(b.approver, b).remove(who) =~= held.remove(who));
            }
        } else {
            let shown = others(init, who).push(b);
            assert(shown.drop_last() =~= others(init, who));
            assert(shown.last() == b);
            if held.contains_key(b.approver) && held[b.approver].at_ns > b.at_ns {
            } else {
                assert(held.remove(who).insert(b.approver, b) =~= held.insert(b.approver, b).remove(
                    who,
                ));
            }
        }
    }
}

/// Filtering keeps a list at one ballot per approver.
proof fn lemma_filter_one_per_approver(ballots: Seq<ApprovalView>, p: spec_fn(ApprovalView) -> bool)
    requires
        one_per_approver(ballots),
    ensures
        one_per_approver(ballots.filter(p)),
    decreases ballots.len(),
{
    if ballots.len() == 0 {
        reveal(Seq::filter);
    } else {
        let init = ballots.drop_last();
        let b = ballots.last();
        assert(ballots =~= init.push(b));
        lemma_filter_one_per_approver(init, p);
        init.lemma_filter_push(b, p);
        if p(b) {
            let f = init.filter(p);
            assert forall|i: int, j: int|
                0 <= i < f.len() + 1 && 0 <= j < f.len() + 1 && i != j implies f.push(b)[i].approver
                != f.push(b)[j].approver by {
                if i == f.len() {
                    init.lemma_filter_contains_rev(p, f[j]);
                    let k = choose|k: int| 0 <= k < init.len() && init[k] == f[j];
                    assert(ballots[k] == init[k]);
                } else if j == f.len() {
                    init.lemma_filter_contains_rev(p, f[i]);
                    let k = choose|k: int| 0 <= k < init.len() && init[k] == f[i];
                    assert(ballots[k] == init[k]);
                }
            }
        }
    }
}

/// Casting into a list and counting it gives the same ballots as appending
/// to it and counting: the supersede rule [`cast`](crate::cast) applies when
/// it writes is the latest-ballot rule the count applies, so a list built by
/// `cast` tallies the way any list with the same ballots does. A refused
/// replay changes nothing either way.
pub proof fn law_cast_agrees_with_count(ballots: Seq<ApprovalView>, a: ApprovalView)
    ensures
        latest(cast_result(ballots, a)) == latest(ballots.push(a)),
{
    lemma_latest_facts(ballots);
    let held = latest(ballots);
    assert(ballots.push(a).drop_last() =~= ballots);
    if newer_exists(ballots, a) {
        let i = choose|i: int|
            0 <= i < ballots.len() && ballots[i].approver == a.approver && ballots[i].at_ns
                > a.at_ns;
        assert(approvers_of(ballots)[i] == a.approver);
        assert(held.contains_key(a.approver));
    } else {
        lemma_latest_others(ballots, a.approver);
        let kept = others(ballots, a.approver);
        assert(kept.push(a).drop_last() =~= kept);
        if held.contains_key(a.approver) {
            let k = choose|k: int| 0 <= k < ballots.len() && ballots[k] == held[a.approver];
            assert(!(ballots[k].approver == a.approver && ballots[k].at_ns > a.at_ns));
        }
        assert(held.remove(a.approver).insert(a.approver, a) =~= held.insert(a.approver, a));
    }
}

/// Casting the same ballot twice leaves what casting it once left:
/// resubmitting a ballot is idempotent.
pub proof fn law_cast_idempotent(ballots: Seq<ApprovalView>, a: ApprovalView)
    ensures
        cast_result(cast_result(ballots, a), a) == cast_result(ballots, a),
{
    if !newer_exists(ballots, a) {
        let keep = |b: ApprovalView| b.approver != a.approver;
        let once = others(ballots, a.approver).push(a);
        broadcast use group_filter_ensures;

        assert(!newer_exists(once, a)) by {
            if newer_exists(once, a) {
                let i = choose|i: int|
                    0 <= i < once.len() && once[i].approver == a.approver && once[i].at_ns
                        > a.at_ns;
                if i < once.len() - 1 {
                    assert(once[i] == ballots.filter(keep)[i]);
                }
            }
        }
        others(ballots, a.approver).lemma_filter_push(a, keep);
        lemma_filter_twice(ballots, keep);
    }
}

/// Filtering twice by the same predicate filters once.
proof fn lemma_filter_twice(s: Seq<ApprovalView>, p: spec_fn(ApprovalView) -> bool)
    ensures
        s.filter(p).filter(p) == s.filter(p),
    decreases s.len(),
{
    if s.len() == 0 {
        reveal(Seq::filter);
    } else {
        let init = s.drop_last();
        assert(s =~= init.push(s.last()));
        lemma_filter_twice(init, p);
        init.lemma_filter_push(s.last(), p);
        init.filter(p).lemma_filter_push(s.last(), p);
    }
}

/// A list built by casting holds at most one ballot per approver, and after
/// an accepted cast it holds the ballot just cast.
pub proof fn law_cast_keeps_one_per_approver(ballots: Seq<ApprovalView>, a: ApprovalView)
    requires
        one_per_approver(ballots),
    ensures
        one_per_approver(cast_result(ballots, a)),
        !newer_exists(ballots, a) ==> cast_result(ballots, a).last() == a,
{
    if !newer_exists(ballots, a) {
        let keep = |b: ApprovalView| b.approver != a.approver;
        let kept = others(ballots, a.approver);
        lemma_filter_one_per_approver(ballots, keep);
        broadcast use group_filter_ensures;

        assert forall|i: int, j: int|
            0 <= i < kept.len() + 1 && 0 <= j < kept.len() + 1 && i != j implies kept.push(
            a,
        )[i].approver != kept.push(a)[j].approver by {
            if i == kept.len() {
                assert(keep(kept[j]));
            } else if j == kept.len() {
                assert(keep(kept[i]));
            }
        }
    }
}

/// A one-element list keeps its element exactly when it satisfies `p`.
proof fn lemma_filter_single(b: ApprovalView, p: spec_fn(ApprovalView) -> bool)
    ensures
        seq![b].filter(p) == (if p(b) { seq![b] } else { Seq::<ApprovalView>::empty() }),
{
    reveal(Seq::filter);
    let e = Seq::<ApprovalView>::empty();
    assert(seq![b] =~= e.push(b));
    assert(e.filter(p) =~= e);
    e.lemma_filter_push(b, p);
}

/// Filtering by a predicate every element satisfies keeps the list, and by
/// one no element satisfies empties it.
proof fn lemma_filter_all(s: Seq<ApprovalView>, p: spec_fn(ApprovalView) -> bool, q: spec_fn(ApprovalView) -> bool)
    requires
        forall|i: int| 0 <= i < s.len() ==> p(#[trigger] s[i]),
        forall|i: int| 0 <= i < s.len() ==> !q(#[trigger] s[i]),
    ensures
        s.filter(p) == s,
        s.filter(q) == Seq::<ApprovalView>::empty(),
    decreases s.len(),
{
    reveal(Seq::filter);
    if s.len() > 0 {
        let init = s.drop_last();
        assert(s =~= init.push(s.last()));
        assert forall|i: int| 0 <= i < init.len() implies p(#[trigger] init[i]) && !q(init[i]) by {
            assert(init[i] == s[i]);
        }
        lemma_filter_all(init, p, q);
        init.lemma_filter_push(s.last(), p);
        init.lemma_filter_push(s.last(), q);
    }
}

/// A record whose signature does not verify changes no vote in [`tally`]
/// (crate::tally), wherever it stands in the list and whatever it claims:
/// refused records are dropped before the latest-ballot rule, so a forged
/// ballot dated far in the future cannot bury an approver's real one. It is
/// counted as invalid, once.
pub proof fn law_refused_record_changes_no_vote(
    policy: Policy,
    subject: SubjectView,
    x: Seq<ApprovalView>,
    b: ApprovalView,
    y: Seq<ApprovalView>,
)
    requires
        !signature_accepted(subject, b),
    ensures
        ({
            let all = x + seq![b] + y;
            let with = expected_tally(
                policy,
                subject,
                subject,
                accepted_records(subject, all),
                refused_records(subject, all),
            );
            let without = expected_tally(
                policy,
                subject,
                subject,
                accepted_records(subject, x + y),
                refused_records(subject, x + y),
            );
            &&& with.approvals == without.approvals
            &&& with.rejections == without.rejections
            &&& with.ignored == without.ignored
            &&& with.reached == without.reached
            &&& with.required == without.required
            &&& with.invalid == without.invalid + 1
        }),
{
    let acc = |a: ApprovalView| signature_accepted(subject, a);
    let rej = |a: ApprovalView| !signature_accepted(subject, a);
    Seq::filter_distributes_over_add(x + seq![b], y, acc);
    Seq::filter_distributes_over_add(x, seq![b], acc);
    Seq::filter_distributes_over_add(x, y, acc);
    Seq::filter_distributes_over_add(x + seq![b], y, rej);
    Seq::filter_distributes_over_add(x, seq![b], rej);
    Seq::filter_distributes_over_add(x, y, rej);
    lemma_filter_single(b, acc);
    lemma_filter_single(b, rej);
    assert(x.filter(acc) + Seq::<ApprovalView>::empty() =~= x.filter(acc));
}

/// Under a policy that requires signatures, a record with no signature
/// changes no vote in [`tally_checked`](crate::tally_checked), wherever it
/// stands among the ballots and whatever it claims, even when a caller
/// vouched for it: it is counted as invalid, once.
pub proof fn law_unsigned_record_changes_no_vote(
    policy: Policy,
    subject: SubjectView,
    x: Seq<ApprovalView>,
    b: ApprovalView,
    y: Seq<ApprovalView>,
    refused: Seq<ApprovalView>,
)
    requires
        policy.require_signature,
        b.signature is None,
    ensures
        ({
            let with = expected_tally(policy, subject, subject, x + seq![b] + y, refused);
            let without = expected_tally(policy, subject, subject, x + y, refused);
            &&& with.approvals == without.approvals
            &&& with.rejections == without.rejections
            &&& with.ignored == without.ignored
            &&& with.reached == without.reached
            &&& with.invalid == without.invalid + 1
        }),
{
    let adm = |a: ApprovalView| admissible(policy.require_signature, a);
    Seq::filter_distributes_over_add(x + seq![b], y, adm);
    Seq::filter_distributes_over_add(x, seq![b], adm);
    Seq::filter_distributes_over_add(x, y, adm);
    lemma_filter_single(b, adm);
    assert(x.filter(adm) + Seq::<ApprovalView>::empty() =~= x.filter(adm));
    x.lemma_filter_len(adm);
    y.lemma_filter_len(adm);
}

/// Records that all carry a valid signature count the same whether they are
/// verified on the spot or vouched for: an outside verifier holding the
/// records a canister stored reaches the canister's answer.
pub proof fn law_verified_records_count_alike(
    policy: Policy,
    subject: SubjectView,
    records: Seq<ApprovalView>,
)
    requires
        forall|i: int| 0 <= i < records.len() ==> signature_accepted(subject, #[trigger] records[i]),
    ensures
        expected_tally(
            policy,
            subject,
            subject,
            accepted_records(subject, records),
            refused_records(subject, records),
        ) == expected_tally(policy, subject, subject, records, Seq::empty()),
{
    lemma_filter_all(
        records,
        |a: ApprovalView| signature_accepted(subject, a),
        |a: ApprovalView| !signature_accepted(subject, a),
    );
}

/// Every ballot [`tally`](crate::tally) counts carries a signature that
/// verifies for the subject: a record that arrived unsigned has nothing
/// behind it and never counts there, whatever the policy says.
pub proof fn law_tally_counts_only_verified(
    policy: Policy,
    subject: SubjectView,
    records: Seq<ApprovalView>,
    who: Seq<u8>,
)
    requires
        latest(candidates(policy.require_signature, accepted_records(subject, records))).contains_key(
            who,
        ),
    ensures
        signature_accepted(
            subject,
            latest(candidates(policy.require_signature, accepted_records(subject, records)))[who],
        ),
{
    let acc = |a: ApprovalView| signature_accepted(subject, a);
    let adm = |a: ApprovalView| admissible(policy.require_signature, a);
    let kept = accepted_records(subject, records);
    let cands = candidates(policy.require_signature, kept);
    lemma_latest_facts(cands);
    let k = choose|k: int| 0 <= k < cands.len() && cands[k] == latest(cands)[who];
    broadcast use group_filter_ensures;

    assert(cands.contains(cands[k]));
    kept.lemma_filter_contains_rev(adm, cands[k]);
    let j = choose|j: int| 0 <= j < kept.len() && kept[j] == cands[k];
    assert(acc(kept[j]));
}

/// Each approver counts once: approvals, rejections and ignored ballots
/// together number the distinct approvers among the records the policy
/// admits, however many ballots each of them cast.
pub proof fn law_each_approver_counted_once(
    policy: Policy,
    subject: SubjectView,
    kept: Seq<ApprovalView>,
    refused: Seq<ApprovalView>,
)
    ensures
        ({
            let t = expected_tally(policy, subject, subject, kept, refused);
            t.approvals + t.rejections + t.ignored == approvers_of(
                candidates(policy.require_signature, kept),
            ).to_set().len()
        }),
{
    let cands = candidates(policy.require_signature, kept);
    let held = latest(cands);
    lemma_latest_facts(cands);
    seq_to_set_is_finite(approvers_of(cands));
    let dom = held.dom();
    let a = dom.filter(approving(policy.members(), held));
    let r = dom.filter(rejecting(policy.members(), held));
    let o = dom.filter(outside(policy.members()));
    dom.lemma_len_filter(approving(policy.members(), held));
    dom.lemma_len_filter(rejecting(policy.members(), held));
    dom.lemma_len_filter(outside(policy.members()));
    lemma_set_disjoint_lens(a, r);
    assert((a + r).finite());
    lemma_set_disjoint_lens(a + r, o);
    assert(a + r + o =~= dom) by {
        assert forall|k: Seq<u8>| dom.contains(k) implies (a + r + o).contains(k) by {
            if policy.members().contains(k) {
                match held[k].decision {
                    Decision::Approve => {},
                    Decision::Reject => {},
                }
            }
        }
    }
}

/// Under a threshold of zero every subject is reached, with no ballot at all.
pub proof fn law_threshold_zero_is_reached(
    policy: Policy,
    subject: SubjectView,
    kept: Seq<ApprovalView>,
    refused: Seq<ApprovalView>,
)
    requires
        policy.threshold == 0,
    ensures
        expected_tally(policy, subject, subject, kept, refused).reached,
{
}

/// Ballots built against one subject and counted for another count nothing
/// and reach nothing: every record is invalid.
pub proof fn law_other_subject_is_refused(
    policy: Policy,
    asked: SubjectView,
    about: SubjectView,
    kept: Seq<ApprovalView>,
    refused: Seq<ApprovalView>,
)
    requires
        asked != about,
    ensures
        ({
            let t = expected_tally(policy, asked, about, kept, refused);
            &&& t.approvals == 0
            &&& !t.reached
            &&& t.invalid == kept.len() + refused.len()
        }),
{
}

/// The signed message binds subject, decision and time: two approvals with
/// the same message are about the same subject, with the same decision, at
/// the same time, so a signature over one can never be replayed as another.
pub proof fn law_message_binds(a1: ApprovalView, s1: SubjectView, a2: ApprovalView, s2: SubjectView)
    requires
        s1.hash.len() == 32,
        s2.hash.len() == 32,
        message_bytes(a1, s1) == message_bytes(a2, s2),
    ensures
        s1 == s2,
        a1.decision == a2.decision,
        a1.at_ns == a2.at_ns,
{
    lemma_auto_spec_u64_to_from_le_bytes();
    let m = message_bytes(a1, s1);
    let c1 = canonical_bytes(s1);
    let c2 = canonical_bytes(s2);
    let e1 = encode_utf8(s1.kind);
    let e2 = encode_utf8(s2.kind);
    assert(DOMAIN@.len() == 14);
    assert(spec_u64_to_le_bytes(a1.at_ns).len() == 8);
    assert(spec_u64_to_le_bytes(a2.at_ns).len() == 8);
    assert(c1.len() == 48 + e1.len());
    assert(c2.len() == 48 + e2.len());
    assert(m.len() == c1.len() + 11);
    assert(message_bytes(a2, s2).len() == c2.len() + 11);
    assert(e1.len() == e2.len());
    let n = c1.len() as int;
    assert(m.subrange(0, n) =~= c1);
    assert(message_bytes(a2, s2).subrange(0, n) =~= c2);
    let l = e1.len() as int;
    assert(c1.subrange(15, 15 + l) =~= e1);
    assert(c2.subrange(15, 15 + l) =~= e2);
    encode_utf8_decode_utf8(s1.kind);
    encode_utf8_decode_utf8(s2.kind);
    assert(s1.hash =~= c1.subrange(16 + l, n));
    assert(s2.hash =~= c2.subrange(16 + l, n));
    assert(s1 =~= s2);
    assert(m[n + 1] == decision_byte(a1.decision));
    assert(message_bytes(a2, s2)[n + 1] == decision_byte(a2.decision));
    match a1.decision {
        Decision::Approve => {},
        Decision::Reject => {},
    }
    match a2.decision {
        Decision::Approve => {},
        Decision::Reject => {},
    }
    assert(m.subrange(n + 3, n + 11) =~= spec_u64_to_le_bytes(a1.at_ns));
    assert(message_bytes(a2, s2).subrange(n + 3, n + 11) =~= spec_u64_to_le_bytes(a2.at_ns));
}

/// The same raw identifier under two kinds is hashed from two different
/// inputs: the kind goes into the hash as well as beside it.
pub proof fn law_short_hash_separates_kinds(k1: Seq<char>, k2: Seq<char>, raw: Seq<u8>)
    requires
        k1 != k2,
    ensures
        short_hash_input(k1, raw) != short_hash_input(k2, raw),
{
    if short_hash_input(k1, raw) == short_hash_input(k2, raw) {
        let e1 = encode_utf8(k1);
        let e2 = encode_utf8(k2);
        assert(short_hash_input(k1, raw).len() == e1.len() + 1 + raw.len());
        assert(short_hash_input(k2, raw).len() == e2.len() + 1 + raw.len());
        assert(e1.len() == e2.len());
        assert(short_hash_input(k1, raw).subrange(0, e1.len() as int) =~= e1);
        assert(short_hash_input(k2, raw).subrange(0, e2.len() as int) =~= e2);
        encode_utf8_decode_utf8(k1);
        encode_utf8_decode_utf8(k2);
    }
}

/// Whether a text contains no NUL character.
pub open spec fn no_nul(kind: Seq<char>) -> bool {
    forall|i: int| 0 <= i < kind.len() ==> #[trigger] (kind[i] as u32) != 0
}

/// The UTF-8 encoding of a scalar other than NUL has no zero byte.
proof fn lemma_scalar_no_zero(v: u32)
    requires
        is_scalar(v),
        v != 0,
    ensures
        forall|i: int| 0 <= i < encode_scalar(v).len() ==> encode_scalar(v)[i] != 0,
{
    assert(v <= 0x7F && v != 0 ==> (v & 0x7F) as u8 != 0) by (bit_vector);
    assert(0xC0u8 | ((v >> 6) & 0x1F) as u8 != 0) by (bit_vector);
    assert(0xE0u8 | ((v >> 12) & 0x0F) as u8 != 0) by (bit_vector);
    assert(0xF0u8 | ((v >> 18) & 0x7) as u8 != 0) by (bit_vector);
    assert(0x80u8 | (v & 0x3F) as u8 != 0) by (bit_vector);
    assert(0x80u8 | ((v >> 6) & 0x3F) as u8 != 0) by (bit_vector);
    assert(0x80u8 | ((v >> 12) & 0x3F) as u8 != 0) by (bit_vector);
}

/// The UTF-8 encoding of a text without NUL has no zero byte.
proof fn lemma_utf8_no_zero(kind: Seq<char>)
    requires
        no_nul(kind),
    ensures
        forall|i: int| 0 <= i < encode_utf8(kind).len() ==> encode_utf8(kind)[i] != 0,
    decreases kind.len(),
{
    if kind.len() > 0 {
        let rest = kind.drop_first();
        assert forall|i: int| 0 <= i < rest.len() implies #[trigger] (rest[i] as u32) != 0 by {
            assert(rest[i] == kind[i + 1]);
            assert((kind[i + 1] as u32) != 0);
        }
        lemma_utf8_no_zero(rest);
        char_is_scalar(kind[0]);
        assert((kind[0] as u32) != 0);
        lemma_scalar_no_zero(kind[0] as u32);
        let e = encode_utf8(kind);
        let first = encode_scalar(kind[0] as u32);
        assert forall|i: int| 0 <= i < e.len() implies e[i] != 0 by {
            if i < first.len() {
                assert(e[i] == first[i]);
            } else {
                assert(e[i] == encode_utf8(rest)[i - first.len()]);
            }
        }
    }
}

/// Distinct kinds and identifiers give distinct hash inputs, of any length,
/// as long as neither kind holds a NUL character: the first zero byte of the
/// input ends the kind.
pub proof fn law_short_hash_input_injective(k1: Seq<char>, r1: Seq<u8>, k2: Seq<char>, r2: Seq<u8>)
    requires
        no_nul(k1),
        no_nul(k2),
        short_hash_input(k1, r1) == short_hash_input(k2, r2),
    ensures
        k1 == k2,
        r1 == r2,
{
    let input = short_hash_input(k1, r1);
    let e1 = encode_utf8(k1);
    let e2 = encode_utf8(k2);
    lemma_utf8_no_zero(k1);
    lemma_utf8_no_zero(k2);
    assert(input[e1.len() as int] == 0);
    assert(short_hash_input(k2, r2)[e2.len() as int] == 0);
    if e1.len() < e2.len() {
        assert(input[e1.len() as int] == e2[e1.len() as int]);
    } else if e2.len() < e1.len() {
        assert(input[e2.len() as int] == e1[e2.len() as int]);
    }
    assert(e1.len() == e2.len());
    assert(input.subrange(0, e1.len() as int) =~= e1);
    assert(short_hash_input(k2, r2).subrange(0, e2.len() as int) =~= e2);
    encode_utf8_decode_utf8(k1);
    encode_utf8_decode_utf8(k2);
    assert(input.subrange(e1.len() as int + 1, input.len() as int) =~= r1);
    assert(short_hash_input(k2, r2).subrange(e2.len() as int + 1, input.len() as int) =~= r2);
}

/// Lowercase hex spends two characters per byte.
proof fn lemma_hex_len(bytes: Seq<u8>)
    ensures
        lower_hex(bytes).len() == 2 * bytes.len(),
    decreases bytes.len(),
{
    if bytes.len() > 0 {
        lemma_hex_len(bytes.drop_first());
    }
}

/// Two byte strings of the same length with the same lowercase hex are the
/// same bytes.
proof fn lemma_hex_injective(b1: Seq<u8>, b2: Seq<u8>)
    requires
        b1.len() == b2.len(),
        lower_hex(b1) == lower_hex(b2),
    ensures
        b1 == b2,
    decreases b1.len(),
{
    if b1.len() > 0 {
        lemma_hex_len(b1.drop_first());
        lemma_hex_len(b2.drop_first());
        let h1 = lower_hex(b1);
        let h2 = lower_hex(b2);
        assert(h1[0] == hex_digit(b1[0] / 16) && h1[1] == hex_digit(b1[0] % 16));
        assert(h2[0] == hex_digit(b2[0] / 16) && h2[1] == hex_digit(b2[0] % 16));
        assert(b1[0] / 16 == b2[0] / 16);
        assert(b1[0] % 16 == b2[0] % 16);
        assert(h1.subrange(2, h1.len() as int) =~= lower_hex(b1.drop_first()));
        assert(h2.subrange(2, h2.len() as int) =~= lower_hex(b2.drop_first()));
        lemma_hex_injective(b1.drop_first(), b2.drop_first());
        assert(b1 =~= b2) by {
            assert(b1 =~= seq![b1[0]] + b1.drop_first());
            assert(b2 =~= seq![b2[0]] + b2.drop_first());
        }
    }
}

/// The storage key `<kind>:<hex hash>` names one subject: two subjects with
/// the same key are the same subject, so a store keyed by it never mixes
/// two subjects' ballots.
pub proof fn law_key_identifies_subject(s1: SubjectView, s2: SubjectView)
    requires
        s1.hash.len() == 32,
        s2.hash.len() == 32,
        s1.kind + ":"@ + lower_hex(s1.hash) == s2.kind + ":"@ + lower_hex(s2.hash),
    ensures
        s1 == s2,
{
    reveal_strlit(":");
    lemma_hex_len(s1.hash);
    lemma_hex_len(s2.hash);
    let k1 = s1.kind + ":"@ + lower_hex(s1.hash);
    let k2 = s2.kind + ":"@ + lower_hex(s2.hash);
    assert(k1.len() == s1.kind.len() + 65);
    assert(k2.len() == s2.kind.len() + 65);
    let n = s1.kind.len() as int;
    assert(k1.subrange(0, n) =~= s1.kind);
    assert(k2.subrange(0, n) =~= s2.kind);
    assert(k1.subrange(n + 1, n + 65) =~= lower_hex(s1.hash));
    assert(k2.subrange(n + 1, n + 65) =~= lower_hex(s2.hash));
    lemma_hex_injective(s1.hash, s2.hash);
    assert(s1 =~= s2);
}

/// The list that casting each ballot of `ballots` in turn builds from an
/// empty list.
pub open spec fn cast_all(ballots: Seq<ApprovalView>) -> Seq<ApprovalView>
    decreases ballots.len(),
{
    if ballots.len() == 0 {
        seq![]
    } else {
        cast_result(cast_all(ballots.drop_last()), ballots.last())
    }
}

/// Successive casts hold, for each approver, the ballot the latest-ballot
/// rule picks from the whole list.
proof fn lemma_cast_all_latest(ballots: Seq<ApprovalView>)
    ensures
        latest(cast_all(ballots)) == latest(ballots),
    decreases ballots.len(),
{
    if ballots.len() > 0 {
        let init = ballots.drop_last();
        let b = ballots.last();
        lemma_cast_all_latest(init);
        law_cast_agrees_with_count(cast_all(init), b);
        assert(cast_all(init).push(b).drop_last() =~= cast_all(init));
    }
}

/// Successive casts keep only ballots of the list.
proof fn lemma_cast_all_from(ballots: Seq<ApprovalView>)
    ensures
        forall|k: int| 0 <= k < cast_all(ballots).len() ==> ballots.contains(#[trigger] cast_all(ballots)[k]),
    decreases ballots.len(),
{
    if ballots.len() > 0 {
        let init = ballots.drop_last();
        let b = ballots.last();
        lemma_cast_all_from(init);
        let c = cast_all(init);
        assert forall|k: int| 0 <= k < cast_all(ballots).len() implies ballots.contains(
            #[trigger] cast_all(ballots)[k],
        ) by {
            let x = cast_all(ballots)[k];
            if newer_exists(c, b) {
                assert(init.contains(x));
                let m = choose|m: int| 0 <= m < init.len() && init[m] == x;
                assert(ballots[m] == x);
            } else if k == cast_all(ballots).len() - 1 {
                assert(ballots[ballots.len() - 1] == x);
            } else {
                let kept = others(c, b.approver);
                assert(x == kept[k]);
                assert(kept.contains(x));
                c.lemma_filter_contains_rev(|v: ApprovalView| v.approver != b.approver, x);
                let at = choose|m: int| 0 <= m < c.len() && c[m] == x;
                assert(init.contains(c[at]));
                let m = choose|m: int| 0 <= m < init.len() && init[m] == x;
                assert(ballots[m] == x);
            }
        }
    }
}

/// A list kept by successive casts counts like the list itself, as long as
/// every ballot passes the policy's own signature rule: [`cast`](crate::cast)
/// and the count agree on which ballot is an approver's latest.
pub proof fn law_successive_casts_count_like_the_list(
    policy: Policy,
    subject: SubjectView,
    ballots: Seq<ApprovalView>,
)
    requires
        forall|i: int| 0 <= i < ballots.len() ==> admissible(policy.require_signature, #[trigger] ballots[i]),
    ensures
        expected_tally(policy, subject, subject, cast_all(ballots), Seq::empty()) == expected_tally(
            policy,
            subject,
            subject,
            ballots,
            Seq::empty(),
        ),
{
    let adm = |b: ApprovalView| admissible(policy.require_signature, b);
    let nadm = |b: ApprovalView| !admissible(policy.require_signature, b);
    lemma_cast_all_latest(ballots);
    lemma_cast_all_from(ballots);
    let l = cast_all(ballots);
    assert forall|k: int| 0 <= k < l.len() implies adm(#[trigger] l[k]) && !nadm(l[k]) by {
        let m = choose|m: int| 0 <= m < ballots.len() && ballots[m] == l[k];
        assert(admissible(policy.require_signature, ballots[m]));
    }
    lemma_filter_all(l, adm, nadm);
    lemma_filter_all(ballots, adm, nadm);
}

/// A set of identities has one ascending list: two strictly ascending lists
/// of the same identities are the same list. So [`Policy::signed`] and
/// [`Policy::new`], given the same approvers and threshold, hold the same
/// approver list and differ only in the signature rule.
pub proof fn law_ascending_list_of_a_set_is_unique(a: Seq<Seq<u8>>, b: Seq<Seq<u8>>)
    requires
        strictly_sorted(a),
        strictly_sorted(b),
        a.to_set() == b.to_set(),
    ensures
        a == b,
    decreases a.len(),
{
    if a.len() == 0 {
        if b.len() > 0 {
            assert(b.to_set().contains(b[0]));
        }
        assert(a =~= b);
    } else {
        assert(a.to_set().contains(a[0]));
        assert(b.len() > 0);
        assert(b.to_set().contains(b[0]));
        let i = choose|i: int| 0 <= i < a.len() && a[i] == b[0];
        let j = choose|j: int| 0 <= j < b.len() && b[j] == a[0];
        if a[0] != b[0] {
            assert(i > 0 && j > 0);
            assert(bytes_lt(a[0], a[i]));
            assert(bytes_lt(b[0], b[j]));
            lemma_lt_transitive(a[0], b[0], a[0]);
            lemma_lt_irreflexive(a[0]);
        }
        let ta = a.drop_first();
        let tb = b.drop_first();
        assert forall|x: Seq<u8>| ta.to_set().contains(x) implies tb.to_set().contains(x) by {
            let m = choose|m: int| 0 <= m < ta.len() && ta[m] == x;
            assert(a[m + 1] == x);
            assert(bytes_lt(a[0], x));
            lemma_lt_irreflexive(x);
            assert(b.to_set().contains(x));
            let k = choose|k: int| 0 <= k < b.len() && b[k] == x;
            assert(k != 0);
            assert(tb[k - 1] == x);
        }
        assert forall|x: Seq<u8>| tb.to_set().contains(x) implies ta.to_set().contains(x) by {
            let m = choose|m: int| 0 <= m < tb.len() && tb[m] == x;
            assert(b[m + 1] == x);
            assert(bytes_lt(b[0], x));
            lemma_lt_irreflexive(x);
            assert(a.to_set().contains(x));
            let k = choose|k: int| 0 <= k < a.len() && a[k] == x;
            assert(k != 0);
            assert(ta[k - 1] == x);
        }
        assert(ta.to_set() =~= tb.to_set());
        law_ascending_list_of_a_set_is_unique(ta, tb);
        assert(a =~= seq![a[0]] + ta);
        assert(b =~= seq![b[0]] + tb);
    }
}

/// A subject is reached exactly when its approvals number at least the
/// threshold: rejections, ignored and invalid records never block it, and
/// the threshold reported is the policy's.
pub proof fn law_reached_exactly_at_threshold(
    policy: Policy,
    subject: SubjectView,
    kept: Seq<ApprovalView>,
    refused: Seq<ApprovalView>,
)
    ensures
        ({
            let t = expected_tally(policy, subject, subject, kept, refused);
            &&& t.reached == (t.approvals >= policy.threshold)
            &&& t.required == policy.threshold
        }),
{
}

/// Every record that carries a signature takes part in the latest-ballot
/// rule, under either signature rule, and under a policy without the rule
/// every record does.
pub proof fn law_signed_records_take_part(require_signature: bool, kept: Seq<ApprovalView>)
    ensures
        forall|b: ApprovalView| b.signature is Some ==> #[trigger] admissible(require_signature, b),
        (forall|i: int| 0 <= i < kept.len() ==> (#[trigger] kept[i]).signature is Some) ==> candidates(
            require_signature,
            kept,
        ) == kept,
        !require_signature ==> candidates(require_signature, kept) == kept,
{
    crate::tally::lemma_signed_or_unruled_all_take_part(require_signature, kept);
}

/// Under a policy without the signature rule, no vouched-for record is
/// invalid: only the records set aside before counting are.
pub proof fn law_no_signature_rule_refuses_nothing(
    policy: Policy,
    subject: SubjectView,
    kept: Seq<ApprovalView>,
    refused: Seq<ApprovalView>,
)
    requires
        !policy.require_signature,
    ensures
        expected_tally(policy, subject, subject, kept, refused).invalid == refused.len(),
{
    crate::tally::lemma_signed_or_unruled_all_take_part(false, kept);
}

/// An approval from an approver the policy names, whose signature verifies,
/// counts as one approval and nothing invalid, under either signature rule.
pub proof fn law_verified_member_approval_counts(policy: Policy, subject: SubjectView, a: ApprovalView)
    requires
        policy.members().contains(a.approver),
        a.decision == Decision::Approve,
        signature_accepted(subject, a),
    ensures
        ({
            let t = expected_tally(
                policy,
                subject,
                subject,
                accepted_records(subject, seq![a]),
                refused_records(subject, seq![a]),
            );
            &&& t.approvals == 1
            &&& t.rejections == 0
            &&& t.ignored == 0
            &&& t.invalid == 0
            &&& t.reached == (policy.threshold <= 1)
        }),
{
    let acc = |b: ApprovalView| signature_accepted(subject, b);
    let rej = |b: ApprovalView| !signature_accepted(subject, b);
    lemma_filter_single(a, acc);
    lemma_filter_single(a, rej);
    let kept = seq![a];
    crate::tally::lemma_signed_or_unruled_all_take_part(policy.require_signature, kept);
    let held = latest(kept);
    assert(kept.drop_last() =~= Seq::<ApprovalView>::empty());
    assert(latest(Seq::<ApprovalView>::empty()) == Map::<Seq<u8>, ApprovalView>::empty());
    assert(latest(kept.drop_last()) == Map::<Seq<u8>, ApprovalView>::empty());
    assert(kept.last() == a);
    assert(held =~= Map::<Seq<u8>, ApprovalView>::empty().insert(a.approver, a));
    assert(held.dom() =~= set![a.approver]);
    assert(held.dom().filter(approving(policy.members(), held)) =~= set![a.approver]);
    assert(held.dom().filter(rejecting(policy.members(), held)) =~= Set::<Seq<u8>>::empty());
    assert(held.dom().filter(outside(policy.members())) =~= Set::<Seq<u8>>::empty());
    assert(set![a.approver].len() == 1) by {
        assert(set![a.approver] =~= Set::<Seq<u8>>::empty().insert(a.approver));
    }
}

/// The input a short identifier is hashed from is the kind's UTF-8 bytes, a
/// zero byte, and the identifier's bytes in their given order; extending the
/// identifier extends the input by the same bytes.
pub proof fn law_short_hash_input_layout(kind: Seq<char>, raw: Seq<u8>, more: Seq<u8>)
    ensures
        ({
            let input = short_hash_input(kind, raw);
            let e = encode_utf8(kind).len() as int;
            &&& input.len() == e + 1 + raw.len()
            &&& input.subrange(0, e) == encode_utf8(kind)
            &&& input[e] == 0
            &&& forall|i: int| 0 <= i < raw.len() ==> input[e + 1 + i] == raw[i]
        }),
        short_hash_input(kind, raw + more) == short_hash_input(kind, raw) + more,
{
    let input = short_hash_input(kind, raw);
    let e = encode_utf8(kind).len() as int;
    assert(input.subrange(0, e) =~= encode_utf8(kind));
    assert(short_hash_input(kind, raw + more) =~= short_hash_input(kind, raw) + more);
}

/// The canonical bytes of a subject are the domain separator, a zero byte,
/// the kind's UTF-8 bytes, a zero byte, and the hash bytes in order.
pub proof fn law_canonical_layout(s: SubjectView)
    ensures
        ({
            let c = canonical_bytes(s);
            let e = encode_utf8(s.kind).len() as int;
            &&& c.len() == 16 + e + s.hash.len()
            &&& c.subrange(0, 14) == DOMAIN@
            &&& c[14] == 0
            &&& c.subrange(15, 15 + e) == encode_utf8(s.kind)
            &&& c[15 + e] == 0
            &&& forall|i: int| 0 <= i < s.hash.len() ==> c[16 + e + i] == s.hash[i]
        }),
{
    let c = canonical_bytes(s);
    let e = encode_utf8(s.kind).len() as int;
    assert(DOMAIN@.len() == 14);
    assert(c.subrange(0, 14) =~= DOMAIN@);
    assert(c.subrange(15, 15 + e) =~= encode_utf8(s.kind));
}

/// A signed message is the subject's canonical bytes, a zero byte, the
/// decision (1 to approve, 0 to reject), a zero byte, and eight bytes that
/// read back little-endian as the approval's time.
pub proof fn law_message_layout(a: ApprovalView, s: SubjectView)
    ensures
        ({
            let m = message_bytes(a, s);
            let n = canonical_bytes(s).len() as int;
            &&& m.len() == n + 11
            &&& m.subrange(0, n) == canonical_bytes(s)
            &&& m[n] == 0
            &&& m[n + 1] == (if a.decision == Decision::Approve { 1u8 } else { 0u8 })
            &&& m[n + 2] == 0
            &&& spec_u64_from_le_bytes(m.subrange(n + 3, n + 11)) == a.at_ns
        }),
{
    lemma_auto_spec_u64_to_from_le_bytes();
    let m = message_bytes(a, s);
    let n = canonical_bytes(s).len() as int;
    assert(spec_u64_to_le_bytes(a.at_ns).len() == 8);
    assert(m.subrange(0, n) =~= canonical_bytes(s));
    assert(m.subrange(n + 3, n + 11) =~= spec_u64_to_le_bytes(a.at_ns));
    match a.decision {
        Decision::Approve => {},
        Decision::Reject => {},
    }
}

/// The latest-ballot rule picks, for each approver, a ballot of theirs with
/// the highest time, and among several with that time the last one in the
/// list: no ballot of the approver that comes after it is as new.
pub proof fn law_latest_is_last_of_the_newest(ballots: Seq<ApprovalView>, who: Seq<u8>)
    requires
        latest(ballots).contains_key(who),
    ensures
        latest(ballots)[who].approver == who,
        forall|i: int|
            0 <= i < ballots.len() && ballots[i].approver == who ==> ballots[i].at_ns
                <= latest(ballots)[who].at_ns,
        exists|j: int|
            0 <= j < ballots.len() && ballots[j] == latest(ballots)[who] && forall|i: int|
                j < i < ballots.len() && ballots[i].approver == who ==> ballots[i].at_ns
                    < ballots[j].at_ns,
    decreases ballots.len(),
{
    lemma_latest_facts(ballots);
    assert forall|i: int|
        0 <= i < ballots.len() && ballots[i].approver == who implies ballots[i].at_ns <= latest(
            ballots,
        )[who].at_ns by {
        assert(latest(ballots)[ballots[i].approver].at_ns >= ballots[i].at_ns);
    }
    let init = ballots.drop_last();
    let b = ballots.last();
    let held = latest(init);
    let last = ballots.len() - 1;
    assert(ballots[last] == b);
    if held.contains_key(b.approver) && held[b.approver].at_ns > b.at_ns {
        law_latest_is_last_of_the_newest(init, who);
        let j = choose|j: int|
            0 <= j < init.len() && init[j] == held[who] && forall|i: int|
                j < i < init.len() && init[i].approver == who ==> init[i].at_ns < init[j].at_ns;
        assert(ballots[j] == init[j]);
        assert forall|i: int| j < i < ballots.len() && ballots[i].approver == who implies ballots[i].at_ns
            < ballots[j].at_ns by {
            if i < last {
                assert(ballots[i] == init[i]);
            }
        }
    } else if who == b.approver {
        assert(latest(ballots)[who] == b);
    } else {
        assert(held.contains_key(who));
        law_latest_is_last_of_the_newest(init, who);
        let j = choose|j: int|
            0 <= j < init.len() && init[j] == held[who] && forall|i: int|
                j < i < init.len() && init[i].approver == who ==> init[i].at_ns < init[j].at_ns;
        assert(ballots[j] == init[j]);
        assert forall|i: int| j < i < ballots.len() && ballots[i].approver == who implies ballots[i].at_ns
            < ballots[j].at_ns by {
            if i < last {
                assert(ballots[i] == init[i]);
            }
        }
    }
}

/// Ballots only from identities the policy does not name count nothing:
/// each of their approvers is ignored once.
pub proof fn law_outsiders_count_nothing(
    policy: Policy,
    subject: SubjectView,
    kept: Seq<ApprovalView>,
    refused: Seq<ApprovalView>,
)
    requires
        forall|i: int| 0 <= i < kept.len() ==> !policy.members().contains(#[trigger] kept[i].approver),
    ensures
        ({
            let t = expected_tally(policy, subject, subject, kept, refused);
            &&& t.approvals == 0
            &&& t.rejections == 0
            &&& t.ignored == approvers_of(candidates(policy.require_signature, kept)).to_set().len()
        }),
{
    let cands = candidates(policy.require_signature, kept);
    let held = latest(cands);
    lemma_latest_facts(cands);
    let dom = held.dom();
    broadcast use group_filter_ensures;

    assert forall|k: Seq<u8>| dom.contains(k) implies !policy.members().contains(k) by {
        let m = choose|m: int| 0 <= m < cands.len() && cands[m] == held[k];
        assert(cands.contains(cands[m]));
        kept.lemma_filter_contains_rev(|b: ApprovalView| admissible(policy.require_signature, b), cands[m]);
        let x = choose|x: int| 0 <= x < kept.len() && kept[x] == cands[m];
        assert(!policy.members().contains(kept[x].approver));
    }
    assert(dom.filter(approving(policy.members(), held)) =~= Set::<Seq<u8>>::empty());
    assert(dom.filter(rejecting(policy.members(), held)) =~= Set::<Seq<u8>>::empty());
    assert(dom.filter(outside(policy.members())) =~= dom);
}

/// Ballots that all approve, from identities the policy names, count one
/// approval per approver and nothing else.
pub proof fn law_member_approvals_all_count(
    policy: Policy,
    subject: SubjectView,
    kept: Seq<ApprovalView>,
    refused: Seq<ApprovalView>,
)
    requires
        forall|i: int|
            0 <= i < kept.len() ==> policy.members().contains(#[trigger] kept[i].approver)
                && kept[i].decision == Decision::Approve,
    ensures
        ({
            let t = expected_tally(policy, subject, subject, kept, refused);
            &&& t.approvals == approvers_of(candidates(policy.require_signature, kept)).to_set().len()
            &&& t.rejections == 0
            &&& t.ignored == 0
        }),
{
    let cands = candidates(policy.require_signature, kept);
    let held = latest(cands);
    lemma_latest_facts(cands);
    let dom = held.dom();
    broadcast use group_filter_ensures;

    assert forall|k: Seq<u8>| dom.contains(k) implies policy.members().contains(k)
        && held[k].decision == Decision::Approve by {
        let m = choose|m: int| 0 <= m < cands.len() && cands[m] == held[k];
        assert(cands.contains(cands[m]));
        kept.lemma_filter_contains_rev(|b: ApprovalView| admissible(policy.require_signature, b), cands[m]);
        let x = choose|x: int| 0 <= x < kept.len() && kept[x] == cands[m];
        assert(policy.members().contains(kept[x].approver));
    }
    assert(dom.filter(approving(policy.members(), held)) =~= dom);
    assert(dom.filter(rejecting(policy.members(), held)) =~= Set::<Seq<u8>>::empty());
    assert(dom.filter(outside(policy.members())) =~= Set::<Seq<u8>>::empty());
}

} // verus!
