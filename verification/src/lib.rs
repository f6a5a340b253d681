//! K-of-N approvals over a hashed subject.
//!
//! A **policy** names N approvers and a threshold K. A **subject** is a
//! 32-byte hash with a kind tag. Each approver casts one **approval**
//! (approve or reject) per subject, later ballots replacing earlier ones.
//! A **tally** counts the ballots that count -- from approvers currently in
//! the policy -- and says whether K is reached.
//!
//! Authenticated approvals carry no signature (the IC established who the
//! caller was); signed approvals carry an Ed25519 signature over
//! [`Approval::message`] and are checked by [`ed25519::verify`].
//! Storage comes in through [`Store`], so every rule here runs on the host.
//!
//! ```rust
//! use ic_multisig::{record, Approval, Approver, Decision, MemoryStore, Policy, Subject};
//!
//! fn main() -> Result<(), ic_multisig::Error> {
//!     let alice = Approver::from_bytes(b"alice");   // a canister: ic_cdk::caller()
//!     let bob = Approver::from_bytes(b"bob");
//!     let policy = Policy::new(vec![alice.clone(), bob.clone()], 2);
//!
//!     // A git commit is a 20-byte SHA-1, so it is widened rather than used raw.
//!     let subject = Subject::of_short_hash("commit", &[0xab; 20]);
//!     let mut store = MemoryStore::default();      // a canister: a Store over a stable map
//!
//!     let tally = record(&mut store, &policy, &subject,
//!         Approval::new(alice, Decision::Approve, 1_000))?;
//!     assert!(!tally.reached);
//!
//!     let tally = record(&mut store, &policy, &subject,
//!         Approval::new(bob, Decision::Approve, 2_000))?;
//!     if tally.reached { /* deploy */ }
//!     Ok(())
//! }
//! ```

use vstd::prelude::*;
use vstd::string::*;

pub mod approval;
pub mod ballots;
pub mod laws;
pub mod ed25519;
pub mod policy;
pub mod store;
pub mod subject;
pub mod tally;

pub use approval::{views, Approval, ApprovalView, Approver, Decision};
pub use ballots::Ballots;
pub use policy::Policy;
pub use store::{record, MemoryStore, Store};
pub use tally::{cast, tally, tally_checked, Tally, TallyView};
pub use subject::{Subject, SubjectView, DOMAIN};

verus! {

/// Why an approval was refused.
#[derive(Debug, Clone, PartialEq, Eq)]
pub enum Error {
    /// The approver is not in the policy.
    NotAnApprover,
    /// The policy requires signed approvals and this one has none.
    MissingSignature,
    /// The signature does not verify against the approver key and message.
    InvalidSignature,
    /// The approval carries a signature this build cannot verify. Signature
    /// checking is always built in here, so nothing returns this variant; it
    /// is kept so that callers matching on it keep compiling.
    SignaturesUnsupported,
    /// The policy is malformed (threshold above the approver count, ...).
    InvalidPolicy(String),
    /// The approver already has a ballot on this subject with a later
    /// `at_ns`. Replaying an old signed ballot must not undo a newer one.
    Superseded,
}

/// The text of an error, as logs and messages show it.
pub open spec fn error_text(e: Error) -> Seq<char> {
    match e {
        Error::NotAnApprover => "not an approver under this policy"@,
        Error::MissingSignature => "this policy requires a signed approval"@,
        Error::InvalidSignature => "signature does not verify"@,
        Error::SignaturesUnsupported => "signed approvals need the ed25519 feature"@,
        Error::InvalidPolicy(why) => "invalid policy: "@ + why@,
        Error::Superseded => "a later ballot by this approver is already recorded"@,
    }
}

impl Error {
    /// The error as text.
    pub fn text(&self) -> (t: String)
        ensures
            t@ == error_text(*self),
    {
        match self {
            Error::NotAnApprover => String::from_str("not an approver under this policy"),
            Error::MissingSignature => String::from_str("this policy requires a signed approval"),
            Error::InvalidSignature => String::from_str("signature does not verify"),
            Error::SignaturesUnsupported => String::from_str(
                "signed approvals need the ed25519 feature",
            ),
            Error::InvalidPolicy(why) => {
                let mut t = String::from_str("invalid policy: ");
                t.append(why.as_str());
                t
            },
            Error::Superseded => String::from_str(
                "a later ballot by this approver is already recorded",
            ),
        }
    }
}

} // verus!
