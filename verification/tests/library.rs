use ed25519_dalek::{Signature, SigningKey, Verifier};
use ic_multisig::{
    cast, ed25519, record, tally, tally_checked, Approval, Approver, Ballots, Decision, Error,
    MemoryStore, Policy, Store, Subject,
};

fn who(n: u8) -> Approver {
    Approver::from_bytes(&vec![n; 8])
}

fn approve(n: u8, at: u64) -> Approval {
    Approval::new(who(n), Decision::Approve, at)
}

fn reject(n: u8, at: u64) -> Approval {
    Approval::new(who(n), Decision::Reject, at)
}

fn hex(bytes: &[u8]) -> String {
    bytes.iter().map(|b| format!("{:02x}", b)).collect()
}

#[test]
fn quick_start_runs() {
    fn main() -> Result<(), ic_multisig::Error> {
        let alice = Approver::from_bytes(b"alice");
        let bob = Approver::from_bytes(b"bob");
        let policy = Policy::new(vec![alice.clone(), bob.clone()], 2);
        let subject = Subject::of_short_hash("commit", &[0xab; 20]);
        let mut store = MemoryStore::default();
        let tally = record(&mut store, &policy, &subject, Approval::new(alice, Decision::Approve, 1_000))?;
        assert!(!tally.reached);
        let tally = record(&mut store, &policy, &subject, Approval::new(bob, Decision::Approve, 2_000))?;
        assert!(tally.reached);
        Ok(())
    }
    main().unwrap();
}

#[test]
fn of_bytes_is_the_sha256_of_the_content() {
    let s = Subject::of_bytes("tally", b"abc");
    assert_eq!(s.kind, "tally");
    assert_eq!(hex(&s.hash), "ba7816bf8f01cfea414140de5dae2223b00361a396177a9cb410ff61f20015ad");
}

#[test]
fn of_short_hash_hashes_kind_nul_raw() {
    let short = Subject::of_short_hash("commit", &[0xab; 20]);
    let mut input = b"commit".to_vec();
    input.push(0);
    input.extend_from_slice(&[0xab; 20]);
    assert_eq!(short.hash, Subject::of_bytes("commit", &input).hash);
    assert_eq!(short.kind, "commit");
}

#[test]
fn key_is_kind_colon_lowercase_hex() {
    let s = Subject::new("module", [0u8; 32]);
    assert_eq!(s.key(), format!("module:{}", "00".repeat(32)));
    let t = Subject::new("commit", [0xab; 32]);
    assert_eq!(t.key(), format!("commit:{}", "ab".repeat(32)));
}

#[test]
fn canonical_is_domain_kind_hash() {
    let s = Subject::new("k", [1u8; 32]);
    let mut expected = b"ic-multisig/v1".to_vec();
    expected.push(0);
    expected.push(b'k');
    expected.push(0);
    expected.extend_from_slice(&[1u8; 32]);
    assert_eq!(s.canonical(), expected);
    assert_eq!(&ic_multisig::DOMAIN, b"ic-multisig/v1");
}

#[test]
fn message_is_canonical_decision_and_time() {
    let s = Subject::new("k", [1u8; 32]);
    let mut expected = s.canonical();
    expected.extend_from_slice(&[0, 1, 0]);
    expected.extend_from_slice(&258u64.to_le_bytes());
    assert_eq!(approve(1, 258).message(&s), expected);
    let r = reject(1, 258).message(&s);
    assert_eq!(r[r.len() - 10], 0);
}

#[test]
fn an_impossible_threshold_names_the_numbers() {
    let p = Policy::new(vec![who(1)], 2);
    assert_eq!(p.validate(), Err(Error::InvalidPolicy("threshold 2 exceeds 1 approvers".to_string())));
    // A name listed twice is one approver.
    let q = Policy::new(vec![who(1), who(1)], 2);
    assert_eq!(q.validate(), Err(Error::InvalidPolicy("threshold 2 exceeds 1 approvers".to_string())));
    assert!(Policy::new(vec![who(1), who(2)], 2).validate().is_ok());
}

#[test]
fn policy_lists_each_approver_once() {
    let p = Policy::new(vec![who(1), who(2), who(1)], 1);
    assert_eq!(p.approvers, vec![who(1), who(2)]);
    assert!(!p.require_signature);
    assert!(p.is_approver(&who(2)));
    assert!(!p.is_approver(&who(3)));
    let s = Policy::signed(vec![who(4)], 1);
    assert!(s.require_signature);
    assert_eq!(s.threshold, 1);
    let d = Policy::default();
    assert!(d.approvers.is_empty() && d.threshold == 0 && !d.require_signature);
}

#[test]
fn cast_refuses_replays_and_replaces_older_ballots() {
    let mut ballots = vec![approve(1, 2_000)];
    assert!(!cast(&mut ballots, reject(1, 1_000)));
    assert_eq!(ballots, vec![approve(1, 2_000)]);
    assert!(ballots[0].approves());

    assert!(cast(&mut ballots, reject(1, 3_000)));
    assert_eq!(ballots, vec![reject(1, 3_000)]);

    // Equal time replaces, so resubmitting is idempotent.
    assert!(cast(&mut ballots, reject(1, 3_000)));
    assert_eq!(ballots, vec![reject(1, 3_000)]);

    // Other approvers keep their place.
    assert!(cast(&mut ballots, approve(2, 1)));
    assert!(cast(&mut ballots, approve(1, 4_000)));
    assert_eq!(ballots, vec![approve(2, 1), approve(1, 4_000)]);
}

#[test]
fn record_refuses_an_older_ballot() {
    let policy = Policy::new(vec![who(1)], 1);
    let subject = Subject::new("commit", [3u8; 32]);
    let mut store = MemoryStore::default();
    assert!(record(&mut store, &policy, &subject, approve(1, 2_000)).unwrap().reached);
    assert_eq!(record(&mut store, &policy, &subject, reject(1, 1_000)).unwrap_err(), Error::Superseded);
    assert_eq!(store.load(&subject), vec![approve(1, 2_000)]);
}

#[test]
fn the_latest_ballot_counts_and_ties_go_to_the_later_record() {
    let policy = Policy::new(vec![who(1)], 1);
    let subject = Subject::new("commit", [3u8; 32]);
    let ballots = Ballots::assume_checked(&subject, vec![approve(1, 1_000), reject(1, 1_000)]);
    let t = tally_checked(&policy, &subject, &ballots);
    assert_eq!((t.approvals, t.rejections, t.reached), (0, 1, false));
    let ballots = Ballots::assume_checked(&subject, vec![approve(1, 2_000), reject(1, 1_000)]);
    let t = tally_checked(&policy, &subject, &ballots);
    assert_eq!((t.approvals, t.rejections, t.reached), (1, 0, true));
}

#[test]
fn each_approver_counts_once() {
    let policy = Policy::new(vec![who(1), who(2)], 2);
    let subject = Subject::new("commit", [3u8; 32]);
    let ballots = Ballots::assume_checked(
        &subject,
        vec![approve(1, 1), approve(1, 2), reject(2, 1), approve(9, 1), approve(9, 5)],
    );
    let t = tally_checked(&policy, &subject, &ballots);
    assert_eq!((t.approvals, t.rejections, t.ignored, t.invalid), (1, 1, 1, 0));
    assert_eq!(t.approvals + t.rejections + t.ignored, 3);
}

#[test]
fn a_forged_record_changes_no_vote_wherever_it_stands() {
    let k = SigningKey::from_bytes(&[5u8; 32]);
    let me = Approver::from_bytes(&k.verifying_key().to_bytes());
    let policy = Policy::signed(vec![me.clone()], 1);
    let subject = Subject::of_bytes("module", b"m");
    let real = ed25519::sign(&subject, &k, Decision::Approve, 10);
    let mut forged = Approval::new(me, Decision::Reject, u64::MAX);
    forged.signature = Some(vec![1u8; 64]);
    let without = tally(&policy, &subject, &[real.clone()]);
    let before = tally(&policy, &subject, &[forged.clone(), real.clone()]);
    let after = tally(&policy, &subject, &[real, forged]);
    for t in [before, after] {
        assert_eq!((t.approvals, t.rejections, t.ignored, t.reached), (without.approvals, without.rejections, without.ignored, without.reached));
        assert_eq!(t.invalid, without.invalid + 1);
    }
}

#[test]
fn sign_names_the_signing_key_and_signs_the_message() {
    let k = SigningKey::from_bytes(&[1u8; 32]);
    let subject = Subject::of_bytes("module", b"wasm bytes");
    let a = ed25519::sign(&subject, &k, Decision::Approve, 100);
    assert_eq!(a.approver.as_bytes(), &k.verifying_key().to_bytes());
    assert_eq!((a.decision, a.at_ns), (Decision::Approve, 100));
    let sig = Signature::from_slice(a.signature.as_ref().unwrap()).unwrap();
    assert!(k.verifying_key().verify(&a.message(&subject), &sig).is_ok());
}

#[test]
fn verify_says_why() {
    let k = SigningKey::from_bytes(&[1u8; 32]);
    let subject = Subject::of_bytes("module", b"wasm bytes");
    let a = ed25519::sign(&subject, &k, Decision::Approve, 100);
    assert_eq!(ed25519::verify(&subject, &a), Ok(()));
    let other = Subject::of_bytes("module", b"other wasm");
    assert_eq!(ed25519::verify(&other, &a), Err(Error::InvalidSignature));
    let unsigned = Approval::new(a.approver.clone(), Decision::Approve, 100);
    assert_eq!(ed25519::verify(&subject, &unsigned), Err(Error::MissingSignature));
    // A signature under a key that is not 32 bytes cannot verify.
    let mut short_key = a.clone();
    short_key.approver = Approver::from_bytes(&[1u8; 31]);
    assert_eq!(ed25519::verify(&subject, &short_key), Err(Error::InvalidSignature));
}

#[test]
fn record_refuses_a_bad_signature_even_when_none_is_required() {
    let k = SigningKey::from_bytes(&[1u8; 32]);
    let me = Approver::from_bytes(&k.verifying_key().to_bytes());
    let policy = Policy::new(vec![me.clone()], 1);
    let subject = Subject::of_bytes("module", b"x");
    let mut bad = ed25519::sign(&subject, &k, Decision::Approve, 1);
    bad.signature.as_mut().unwrap()[3] ^= 0x10;
    let mut store = MemoryStore::default();
    assert_eq!(record(&mut store, &policy, &subject, bad).unwrap_err(), Error::InvalidSignature);
    assert!(store.load(&subject).is_empty());
}

#[test]
fn ballots_split_what_verifies_from_what_does_not() {
    let k = SigningKey::from_bytes(&[1u8; 32]);
    let subject = Subject::of_bytes("module", b"x");
    let good = ed25519::sign(&subject, &k, Decision::Approve, 1);
    let unsigned = approve(2, 1);
    let b = Ballots::verified(&subject, vec![unsigned.clone(), good.clone()]);
    assert_eq!(b.subject(), &subject);
    assert_eq!(b.as_slice(), &[good.clone()]);
    assert_eq!(b.rejected(), &[unsigned]);
    assert_eq!(b.len(), 1);
    assert!(!b.is_empty());
    assert_eq!(b.into_vec(), vec![good]);
}

#[test]
fn memory_store_keeps_subjects_apart() {
    let mut store = MemoryStore::default();
    let a = Subject::new("commit", [1u8; 32]);
    let b = Subject::new("module", [1u8; 32]);
    assert!(store.load(&a).is_empty());
    store.save(&a, vec![approve(1, 1)]);
    store.save(&b, vec![reject(2, 2)]);
    store.save(&a, vec![approve(3, 3), approve(4, 4)]);
    assert_eq!(store.load(&a), vec![approve(3, 3), approve(4, 4)]);
    assert_eq!(store.load(&b), vec![reject(2, 2)]);
}

#[test]
fn a_removed_approver_is_ignored_not_counted() {
    let subject = Subject::new("commit", [9u8; 32]);
    let wide = Policy::new(vec![who(1), who(2)], 1);
    let mut store = MemoryStore::default();
    record(&mut store, &wide, &subject, approve(2, 1)).unwrap();
    let narrow = Policy::new(vec![who(1)], 1);
    assert_eq!(record(&mut store, &narrow, &subject, approve(2, 2)).unwrap_err(), Error::NotAnApprover);
    let t = record(&mut store, &narrow, &subject, reject(1, 3)).unwrap();
    assert_eq!((t.approvals, t.rejections, t.ignored, t.reached), (0, 1, 1, false));
}

#[test]
fn short_ids_are_principals_and_keys_are_not() {
    let id = Approver::from_bytes(&[7u8; 8]);
    let p = id.principal().unwrap();
    assert_eq!(p.as_slice(), &[7u8; 8]);
    assert!(Approver::from_bytes(&[7u8; 29]).principal().is_some());
    assert!(Approver::from_bytes(&[7u8; 32]).principal().is_none());
    let anon = candid::Principal::anonymous();
    assert_eq!(Approver::from_bytes(anon.as_slice()).principal(), Some(anon));
}

#[test]
fn a_cast_list_counts_like_the_appended_list() {
    let policy = Policy::new(vec![who(1), who(2)], 1);
    let subject = Subject::new("commit", [4u8; 32]);
    let ballots = vec![approve(1, 5), reject(2, 3)];
    for next in [reject(1, 4), reject(1, 6), approve(2, 3)] {
        let mut cast_list = ballots.clone();
        cast(&mut cast_list, next.clone());
        let mut appended = ballots.clone();
        appended.push(next);
        let a = tally_checked(&policy, &subject, &Ballots::assume_checked(&subject, cast_list));
        let b = tally_checked(&policy, &subject, &Ballots::assume_checked(&subject, appended));
        assert_eq!((a.approvals, a.rejections, a.ignored, a.reached), (b.approvals, b.rejections, b.ignored, b.reached));
    }
}

#[test]
fn different_subjects_have_different_keys() {
    let a = Subject::new("commit", [1u8; 32]);
    let b = Subject::new("commit", [2u8; 32]);
    let c = Subject::new("module", [1u8; 32]);
    assert_ne!(a.key(), b.key());
    assert_ne!(a.key(), c.key());
}

#[test]
fn policy_approvers_ascend_in_byte_order() {
    let p = Policy::new(vec![who(3), who(1), who(3), Approver::from_bytes(&[1u8; 3])], 1);
    assert_eq!(p.approvers, vec![Approver::from_bytes(&[1u8; 3]), who(1), who(3)]);
    let s = Policy::signed(vec![who(2), who(1)], 2);
    assert_eq!(s.approvers, vec![who(1), who(2)]);
    assert!(s.validate().is_ok());
}

#[test]
fn sign_is_sign_with_secret_of_the_key() {
    let secret = [6u8; 32];
    let k = SigningKey::from_bytes(&secret);
    let subject = Subject::of_bytes("module", b"y");
    let a = ed25519::sign_with_secret(&subject, &secret, Decision::Reject, 7);
    assert_eq!(a, ed25519::sign(&subject, &k, Decision::Reject, 7));
    assert_eq!(a.approver.as_bytes(), &k.verifying_key().to_bytes());
    assert_eq!(a.signature.as_ref().unwrap().len(), 64);
    assert_eq!(ed25519::verify(&subject, &a), Ok(()));
}

#[test]
fn approvers_read_as_principal_text_or_hex() {
    let short = Approver::from_bytes(&[7u8; 8]);
    assert_eq!(short.text(), candid::Principal::from_slice(&[7u8; 8]).to_text());
    let anon = candid::Principal::anonymous();
    assert_eq!(Approver::from_bytes(anon.as_slice()).text(), "2vxsx-fae");
    let key = Approver::from_bytes(&[0xabu8; 32]);
    assert_eq!(key.text(), "ab".repeat(32));
}

#[test]
fn errors_read_as_text() {
    assert_eq!(Error::NotAnApprover.text(), "not an approver under this policy");
    assert_eq!(Error::MissingSignature.text(), "this policy requires a signed approval");
    assert_eq!(Error::InvalidSignature.text(), "signature does not verify");
    assert_eq!(Error::SignaturesUnsupported.text(), "signed approvals need the ed25519 feature");
    assert_eq!(Error::InvalidPolicy("why".to_string()).text(), "invalid policy: why");
    assert_eq!(Error::Superseded.text(), "a later ballot by this approver is already recorded");
    let p = Policy::new(vec![who(1)], 12);
    assert_eq!(p.validate().unwrap_err().text(), "invalid policy: threshold 12 exceeds 1 approvers");
}

#[test]
fn a_principal_converts_to_the_approver_of_its_bytes_and_back() {
    let anon = candid::Principal::anonymous();
    let a = Approver::from(anon);
    assert_eq!(a.as_bytes(), anon.as_slice());
    assert_eq!(a.principal(), Some(anon));
    let p = Approver::from_bytes(&[9u8; 20]).principal().unwrap();
    assert_eq!(Approver::from(p), Approver::from_bytes(&[9u8; 20]));
}

#[test]
fn signed_is_new_with_the_signature_rule() {
    let xs = vec![who(5), who(2), who(5), who(4)];
    let s = Policy::signed(xs.clone(), 2);
    let n = Policy::new(xs, 2);
    assert_eq!(s, Policy { require_signature: true, ..n });
}

#[test]
fn sign_uses_the_given_key() {
    let subject = Subject::of_bytes("module", b"z");
    let a = ed25519::sign(&subject, &SigningKey::from_bytes(&[8u8; 32]), Decision::Approve, 1);
    let b = ed25519::sign(&subject, &SigningKey::from_bytes(&[9u8; 32]), Decision::Approve, 1);
    assert_ne!(a.approver, b.approver);
    assert_eq!(a.approver.as_bytes(), &SigningKey::from_bytes(&[8u8; 32]).verifying_key().to_bytes());
}
