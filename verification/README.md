# ic-multisig

K-of-N approvals over a hashed subject, for Internet Computer canisters and
the clients that verify them. The counting, admission and encoding rules
below are stated as contracts and proved. Ed25519, SHA-256,
hex and principal encoding are called from their crates, and their results
are named rather than proved.

A **policy** names N approvers and a threshold K. A **subject** is a 32-byte
hash with a kind tag. Each approver casts one **approval** per subject; a
**tally** counts the ballots from approvers currently in the policy and says
whether K is reached.

- `tally(policy, subject, records)` verifies signatures first and counts only
  what verified. This is the call for anything collected from a network or a
  file.
- `tally_checked(policy, subject, ballots)` counts what the caller vouched
  for through `Ballots::assume_checked`, and refuses to count ballots built
  against another subject.
- `record(store, policy, subject, approval)` admits one ballot and returns the
  new count.

A refused record is dropped before the latest-ballot rule, never after, so a
forged record dated far in the future cannot supersede an approver's real
ballot (`laws::law_refused_record_changes_no_vote`).

```rust
use ic_multisig::{record, Approval, Approver, Decision, MemoryStore, Policy, Subject};

fn main() -> Result<(), ic_multisig::Error> {
    let alice = Approver::from_bytes(b"alice");   // a canister: ic_cdk::caller()
    let bob = Approver::from_bytes(b"bob");
    let policy = Policy::new(vec![alice.clone(), bob.clone()], 2);

    // A git commit is a 20-byte SHA-1, so it is widened rather than used raw.
    let subject = Subject::of_short_hash("commit", &[0xab; 20]);
    let mut store = MemoryStore::default();      // a canister: a Store over a stable map

    let tally = record(&mut store, &policy, &subject,
        Approval::new(alice, Decision::Approve, 1_000))?;
    assert!(!tally.reached);

    let tally = record(&mut store, &policy, &subject,
        Approval::new(bob, Decision::Approve, 2_000))?;
    if tally.reached { /* deploy */ }
    Ok(())
}
```

## Layout

- `src/`: the verified library. `laws.rs` holds the properties proved of the
  library as a whole.
- `tests/`: the test suite.
- `app/`: serde and Candid forms of the public types, and their text forms.
