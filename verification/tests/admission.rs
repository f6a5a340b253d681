// An Approval is an inert record: `approver` is whatever bytes its author
// typed. These tests are about counting one without first establishing where
// it came from, and about the order in which the count throws the bad ones
// out.

use ed25519_dalek::SigningKey;
use ic_multisig::{
    ed25519, record, tally, tally_checked, Approval, Approver, Ballots, Decision, MemoryStore,
    Policy, Store, Subject,
};

fn subject() -> Subject {
    Subject::of_bytes("module", b"wasm bytes")
}

/// A record that carries signature bytes, so the signed policy's "must have
/// a signature" rule is satisfied and the test is about the ordering rather
/// than about that rule. Never verified here.
fn signed_looking(approver: Approver, decision: Decision, at_ns: u64) -> Approval {
    let mut a = Approval::new(approver, decision, at_ns);
    a.signature = Some(vec![0u8; 64]);
    a
}

fn approver(k: &SigningKey) -> Approver {
    Approver::from_bytes(&k.verifying_key().to_bytes())
}

#[test]
fn an_unsigned_record_naming_an_approver_is_not_counted() {
    let key = Approver::from_bytes(&[7u8; 32]);
    let policy = Policy::signed(vec![key.clone()], 1);
    let forged = Approval::new(key, Decision::Approve, 1_000);

    let t = tally(&policy, &subject(), &[forged]);
    assert_eq!((t.approvals, t.invalid, t.reached), (0, 1, false));
}

#[test]
fn an_unsigned_record_cannot_suppress_a_real_one() {
    let alice = Approver::from_bytes(&[1u8; 32]);
    let policy = Policy::signed(vec![alice.clone()], 1);

    let ballots = Ballots::assume_checked(
        &subject(),
        vec![
            signed_looking(alice.clone(), Decision::Approve, 1_000),
            Approval::new(alice, Decision::Reject, u64::MAX),
        ],
    );

    let t = tally_checked(&policy, &subject(), &ballots);
    assert_eq!((t.approvals, t.rejections, t.invalid), (1, 0, 1));
    assert!(t.reached, "the forged reject must not bury the real approval");
}

#[test]
fn tally_counts_nothing_that_is_not_signed_whatever_the_policy_says() {
    let alice = Approver::from_bytes(b"alice");
    let policy = Policy::new(vec![alice.clone()], 1);
    let ballots = vec![
        Approval::new(alice.clone(), Decision::Approve, 1_000),
        Approval::new(alice, Decision::Reject, u64::MAX),
    ];

    let t = tally(&policy, &subject(), &ballots);
    assert_eq!((t.approvals, t.rejections, t.invalid), (0, 0, 2));
    assert!(!t.reached);
}

#[test]
fn ballots_cannot_be_counted_against_another_subject() {
    let alice = Approver::from_bytes(b"alice");
    let policy = Policy::new(vec![alice.clone()], 1);
    let here = subject();
    let elsewhere = Subject::of_bytes("module", b"a different wasm");

    let ballots =
        Ballots::assume_checked(&here, vec![Approval::new(alice, Decision::Approve, 1)]);
    assert!(tally_checked(&policy, &here, &ballots).reached);

    let t = tally_checked(&policy, &elsewhere, &ballots);
    assert_eq!((t.approvals, t.invalid, t.reached), (0, 1, false));
}

#[test]
fn assume_checked_keeps_what_it_is_given() {
    let alice = Approver::from_bytes(b"alice");
    let policy = Policy::new(vec![alice.clone()], 1);
    let ballots =
        Ballots::assume_checked(&subject(), vec![Approval::new(alice, Decision::Approve, 1)]);
    assert_eq!(ballots.rejected().len(), 0);
    assert!(tally_checked(&policy, &subject(), &ballots).reached);
}

#[test]
fn without_the_feature_a_signed_record_is_refused_not_trusted() {
    // Signature checking is always built in here; a record whose signature
    // bytes do not verify is refused, not trusted.
    let alice = Approver::from_bytes(&[1u8; 32]);
    let policy = Policy::signed(vec![alice.clone()], 1);
    let mut record = Approval::new(alice, Decision::Approve, 1_000);
    record.signature = Some(vec![0u8; 64]);

    let ballots = Ballots::verified(&subject(), vec![record]);
    assert_eq!(ballots.rejected().len(), 1);
    assert!(ballots.is_empty());
    assert!(!tally_checked(&policy, &subject(), &ballots).reached);
}

#[test]
fn a_bad_signature_is_refused_and_kept_for_the_audit() {
    let k = SigningKey::from_bytes(&[1u8; 32]);
    let policy = Policy::signed(vec![approver(&k)], 1);
    let mut tampered = ed25519::sign(&subject(), &k, Decision::Approve, 1_000);
    tampered.signature.as_mut().unwrap()[0] ^= 1;

    let ballots = Ballots::verified(&subject(), vec![tampered.clone()]);
    assert!(ballots.is_empty());
    assert_eq!(ballots.rejected(), &[tampered]);

    let t = tally_checked(&policy, &subject(), &ballots);
    assert_eq!((t.approvals, t.invalid, t.reached), (0, 1, false));
}

#[test]
fn a_signature_for_another_subject_does_not_transfer() {
    let k = SigningKey::from_bytes(&[1u8; 32]);
    let policy = Policy::signed(vec![approver(&k)], 1);
    let elsewhere =
        ed25519::sign(&Subject::of_bytes("module", b"other"), &k, Decision::Approve, 1);

    let t = tally(&policy, &subject(), &[elsewhere]);
    assert_eq!((t.approvals, t.invalid, t.reached), (0, 1, false));
}

#[test]
fn a_forged_record_cannot_bury_a_signed_approval() {
    let k = SigningKey::from_bytes(&[1u8; 32]);
    let policy = Policy::signed(vec![approver(&k)], 1);
    let real = ed25519::sign(&subject(), &k, Decision::Approve, 1_000);

    let mut forged = Approval::new(approver(&k), Decision::Reject, u64::MAX);
    forged.signature = Some(vec![0u8; 64]);

    let t = tally(&policy, &subject(), &[real, forged]);
    assert_eq!((t.approvals, t.rejections, t.invalid), (1, 0, 1));
    assert!(t.reached);
}

#[test]
fn an_outside_verifier_and_the_canister_reach_the_same_answer() {
    let k1 = SigningKey::from_bytes(&[1u8; 32]);
    let k2 = SigningKey::from_bytes(&[2u8; 32]);
    let policy = Policy::signed(vec![approver(&k1), approver(&k2)], 2);
    let subject = subject();

    let mut store = MemoryStore::default();
    for k in [&k1, &k2] {
        record(&mut store, &policy, &subject, ed25519::sign(&subject, k, Decision::Approve, 10))
            .unwrap();
    }
    let canister =
        tally_checked(&policy, &subject, &Ballots::assume_checked(&subject, store.load(&subject)));

    let mut collected = store.load(&subject);
    collected.push(Approval::new(approver(&k1), Decision::Reject, u64::MAX));
    let outside = tally(&policy, &subject, &collected);

    assert!(canister.reached && outside.reached);
    assert_eq!(
        (canister.approvals, canister.rejections),
        (outside.approvals, outside.rejections)
    );
    assert_eq!((canister.invalid, outside.invalid), (0, 1));
}
