use crate::subject::{
    append_bytes, canonical_bytes, hex_encode, lower_hex, Subject, SubjectView, DOMAIN,
};
use vstd::utf8::encode_utf8;
use vstd::bytes::{lemma_auto_spec_u64_to_from_le_bytes, spec_u64_to_le_bytes, u64_to_le_bytes};
use vstd::prelude::*;
use vstd::slice::slice_to_vec;

verus! {

#[verifier::external_type_specification]
#[verifier::external_body]
pub struct ExPrincipal(candid::Principal);

/// The IC principal whose bytes are `bytes`.
pub uninterp spec fn ic_principal_of(bytes: Seq<u8>) -> candid::Principal;

/// The textual form of the IC principal whose bytes are `bytes`.
pub uninterp spec fn ic_principal_text(bytes: Seq<u8>) -> Seq<char>;

/// The significant bytes of a principal.
pub uninterp spec fn ic_principal_bytes(p: candid::Principal) -> Seq<u8>;

/// `candid::Principal::try_from_slice`: a principal holds at most 29 bytes,
/// the source refuses exactly the longer slices, and otherwise returns the
/// principal of those bytes, named by [`ic_principal_of`], which holds
/// exactly those bytes (`from_slice_core` copies them and records their
/// length, and `as_slice` gives back that many).
#[verifier::external_body]
fn principal_from_slice(bytes: &[u8]) -> (p: Option<candid::Principal>)
    ensures
        p is Some <==> bytes@.len() <= 29,
        p is Some ==> p->0 == ic_principal_of(bytes@),
        p is Some ==> ic_principal_bytes(p->0) == bytes@,
{
    candid::Principal::try_from_slice(bytes).ok()
}

/// `candid::Principal::as_slice`: the principal's significant bytes, named
/// by [`ic_principal_bytes`]; a principal holds at most 29 of them.
#[verifier::external_body]
fn principal_slice(p: &candid::Principal) -> (bytes: Vec<u8>)
    ensures
        bytes@ == ic_principal_bytes(*p),
        bytes@.len() <= 29,
{
    p.as_slice().to_vec()
}

/// `candid::Principal::to_text` of the principal `Principal::from_slice`
/// builds from `bytes` (which panics above 29 bytes, hence the bound); named
/// by [`ic_principal_text`].
#[verifier::external_body]
fn principal_text(bytes: &[u8]) -> (text: String)
    requires
        bytes@.len() <= 29,
    ensures
        text@ == ic_principal_text(bytes@),
{
    candid::Principal::from_slice(bytes).to_text()
}

/// Who approves. Bytes, compared bytewise: an IC principal for
/// authenticated approvals, a public key for signed ones.
#[derive(Clone, PartialEq, Eq, PartialOrd, Ord, Hash, Debug)]
pub struct Approver(pub Vec<u8>);

impl View for Approver {
    type V = Seq<u8>;

    open spec fn view(&self) -> Seq<u8> {
        self.0@
    }
}

/// Whether two byte strings are equal.
pub(crate) fn bytes_equal(a: &[u8], b: &[u8]) -> (same: bool)
    ensures
        same == (a@ == b@),
{
    if a.len() != b.len() {
        return false;
    }
    let n = a.len();
    for i in 0..n
        invariant
            n == a@.len(),
            n == b@.len(),
            forall|j: int| 0 <= j < i ==> a@[j] == b@[j],
    {
        if a[i] != b[i] {
            return false;
        }
    }
    assert(a@ =~= b@);
    true
}

impl Approver {
    /// An approver from raw bytes: principal bytes for an authenticated
    /// approval, a 32-byte verifying key for a signed one. No validation --
    /// what makes an approver legitimate is being named by the policy.
    pub fn from_bytes(bytes: &[u8]) -> (a: Approver)
        ensures
            a@ == bytes@,
    {
        Approver(slice_to_vec(bytes))
    }

    /// The identity bytes, as stored and as compared.
    pub fn as_bytes(&self) -> (bytes: &[u8])
        ensures
            bytes@ == self@,
    {
        self.0.as_slice()
    }

    /// The approver as a principal, when it can be one. Any blob of at most
    /// 29 bytes is a principal by the IC's definition, so this is `Some` for
    /// short opaque ids too; a 32-byte signing key never is.
    pub fn principal(&self) -> (p: Option<candid::Principal>)
        ensures
            p is Some <==> self@.len() <= 29,
            p is Some ==> p->0 == ic_principal_of(self@),
            p is Some ==> ic_principal_bytes(p->0) == self@,
    {
        principal_from_slice(self.0.as_slice())
    }

    /// The approver as text: the principal's textual form when the bytes are
    /// a principal, lowercase hex otherwise.
    pub fn text(&self) -> (t: String)
        ensures
            t@ == (if self@.len() <= 29 {
                ic_principal_text(self@)
            } else {
                lower_hex(self@)
            }),
    {
        if self.0.len() <= 29 {
            principal_text(self.0.as_slice())
        } else {
            hex_encode(self.0.as_slice())
        }
    }

    /// Whether two approvers are the same bytes.
    pub(crate) fn same_as(&self, other: &Approver) -> (same: bool)
        ensures
            same == (self@ == other@),
    {
        bytes_equal(self.0.as_slice(), other.0.as_slice())
    }
}

impl From<candid::Principal> for Approver {
    /// The approver whose bytes are the principal's.
    fn from(p: candid::Principal) -> (a: Approver)
        ensures
            a@ == ic_principal_bytes(p),
            a@.len() <= 29,
    {
        let bytes = principal_slice(&p);
        Approver(bytes)
    }
}

impl vstd::std_specs::convert::FromSpecImpl<candid::Principal> for Approver {
    open spec fn obeys_from_spec() -> bool {
        false
    }

    open spec fn from_spec(v: candid::Principal) -> Approver {
        choose|a: Approver| a@ == ic_principal_bytes(v)
    }
}

/// Which way an approver voted.
#[derive(Clone, Copy, PartialEq, Eq, Structural, Debug)]
pub enum Decision {
    /// Counts toward the threshold.
    Approve,
    /// Does not. A rejection is recorded rather than dropped so a tally can
    /// tell "voted no" from "has not voted".
    Reject,
}

/// One approver's ballot on one subject.
#[derive(Clone, PartialEq, Eq, Debug)]
pub struct Approval {
    /// Who cast it. For a signed approval this is also the verifying key
    /// the signature is checked against.
    pub approver: Approver,
    /// Approve or reject.
    pub decision: Decision,
    /// When it was cast, nanoseconds since the epoch.
    pub at_ns: u64,
    /// Present for signed approvals: a signature over [`Approval::message`].
    pub signature: Option<Vec<u8>>,
}

/// An approval as the contracts see it.
#[verifier::ext_equal]
pub struct ApprovalView {
    pub approver: Seq<u8>,
    pub decision: Decision,
    pub at_ns: u64,
    pub signature: Option<Seq<u8>>,
}

impl View for Approval {
    type V = ApprovalView;

    open spec fn view(&self) -> ApprovalView {
        ApprovalView {
            approver: self.approver@,
            decision: self.decision,
            at_ns: self.at_ns,
            signature: match self.signature {
                Some(s) => Some(s@),
                None => None,
            },
        }
    }
}

/// The views of a list of approvals, in order.
pub open spec fn views(s: Seq<Approval>) -> Seq<ApprovalView> {
    s.map_values(|a: Approval| a@)
}

/// The byte that stands for a decision in a signed message.
pub open spec fn decision_byte(d: Decision) -> u8 {
    match d {
        Decision::Approve => 1,
        Decision::Reject => 0,
    }
}

/// What a signed approval signs: canonical(subject) || 0 || decision || 0 || le64(at_ns).
pub open spec fn message_bytes(a: ApprovalView, s: SubjectView) -> Seq<u8> {
    canonical_bytes(s) + seq![0u8, decision_byte(a.decision), 0u8] + spec_u64_to_le_bytes(a.at_ns)
}

impl Approval {
    /// An unsigned ballot. Inside a canister this is the whole record: the
    /// IC authenticated the caller, so there is nothing left to prove.
    pub fn new(approver: Approver, decision: Decision, at_ns: u64) -> (a: Approval)
        ensures
            a@ == (ApprovalView { approver: approver@, decision, at_ns, signature: None }),
    {
        Approval { approver, decision, at_ns, signature: None }
    }

    /// Whether this ballot counts toward the threshold.
    pub fn approves(&self) -> (yes: bool)
        ensures
            yes == (self.decision == Decision::Approve),
    {
        match self.decision {
            Decision::Approve => true,
            Decision::Reject => false,
        }
    }

    /// The bytes a signed approval signs: the subject's canonical form, the
    /// decision, and the time, each domain-separated so a signature over one
    /// subject or decision can never be replayed as another.
    pub fn message(&self, subject: &Subject) -> (m: Vec<u8>)
        ensures
            m@ == message_bytes(self@, subject@),
            m@ == DOMAIN@ + seq![0u8] + encode_utf8(subject.kind@) + seq![0u8] + subject.hash@
                + seq![0u8, (if self.decision == Decision::Approve { 1u8 } else { 0u8 }), 0u8]
                + spec_u64_to_le_bytes(self.at_ns),
            m@.subrange(m@.len() - 8, m@.len() as int) == spec_u64_to_le_bytes(self.at_ns),
            m@[m@.len() - 10] == (if self.decision == Decision::Approve { 1u8 } else { 0u8 }),
    {
        let mut m = subject.canonical();
        m.push(0);
        m.push(
            match self.decision {
                Decision::Approve => 1,
                Decision::Reject => 0,
            },
        );
        m.push(0);
        let t = u64_to_le_bytes(self.at_ns);
        append_bytes(&mut m, t.as_slice());
        assert(m@ =~= message_bytes(self@, subject@));
        proof {
            lemma_auto_spec_u64_to_from_le_bytes();
        }
        assert(m@.subrange(m@.len() - 8, m@.len() as int) =~= spec_u64_to_le_bytes(self.at_ns));
        m
    }

    /// A copy with the same view.
    pub(crate) fn copy_of(&self) -> (c: Approval)
        ensures
            c@ == self@,
    {
        Approval {
            approver: Approver::from_bytes(self.approver.as_bytes()),
            decision: self.decision,
            at_ns: self.at_ns,
            signature: match &self.signature {
                Some(s) => Some(slice_to_vec(s.as_slice())),
                None => None,
            },
        }
    }
}

} // verus!
