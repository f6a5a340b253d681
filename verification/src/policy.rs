use crate::approval::Approver;
use crate::Error;
use vstd::prelude::*;
use vstd::seq_lib::*;
use vstd::string::*;

verus! {

/// N approvers and a threshold K. `threshold == 0` means no approval is
/// needed and every subject is reached; that is the "deploy on push" default
/// a consumer starts from.
///
/// The approvers are a set: what counts is which byte strings the list
/// names, and a name listed twice still gets one vote.
#[derive(Clone, PartialEq, Eq, Debug)]
pub struct Policy {
    /// The N, read as a set of identities.
    pub approvers: Vec<Approver>,
    /// The K: how many approvals a subject needs before it is reached.
    pub threshold: u32,
    /// Refuse approvals that carry no signature. For policies whose
    /// approvers are public keys rather than principals.
    pub require_signature: bool,
}

/// The identity bytes of a list of approvers, in order.
pub open spec fn approver_keys(s: Seq<Approver>) -> Seq<Seq<u8>> {
    s.map_values(|a: Approver| a@)
}

/// The decimal digits of a natural number, most significant first.
pub open spec fn decimal(n: nat) -> Seq<char>
    decreases n,
{
    if n < 10 {
        seq![(n + 48) as char]
    } else {
        decimal(n / 10) + seq![((n % 10) + 48) as char]
    }
}

/// The text of the error for a threshold above the approver count.
pub open spec fn excess_message(threshold: nat, approvers: nat) -> Seq<char> {
    "threshold "@ + decimal(threshold) + " exceeds "@ + decimal(approvers) + " approvers"@
}

/// `u64::to_string`: std's `Display` for unsigned integers writes their
/// decimal digits, with no sign or padding.
#[verifier::external_body]
fn decimal_text(n: u64) -> (text: String)
    ensures
        text@ == decimal(n as nat),
{
    n.to_string()
}

/// The message for a threshold above the approver count.
fn excess_message_text(threshold: u32, approvers: usize) -> (m: String)
    ensures
        m@ == excess_message(threshold as nat, approvers as nat),
{
    let mut m = String::from_str("threshold ");
    let t = decimal_text(threshold as u64);
    m.append(t.as_str());
    m.append(" exceeds ");
    let n = decimal_text(approvers as u64);
    m.append(n.as_str());
    m.append(" approvers");
    m
}

/// Whether `a` is among the first `upto` entries of `list`.
fn listed_before(list: &Vec<Approver>, upto: usize, a: &Approver) -> (found: bool)
    requires
        upto <= list@.len(),
    ensures
        found == approver_keys(list@).take(upto as int).contains(a@),
{
    let ghost keys = approver_keys(list@);
    for j in 0..upto
        invariant
            upto <= list@.len(),
            keys == approver_keys(list@),
            forall|k: int| 0 <= k < j ==> keys[k] != a@,
    {
        if list[j].same_as(a) {
            assert(keys.take(upto as int)[j as int] == a@);
            return true;
        }
    }
    assert forall|k: int| 0 <= k < keys.take(upto as int).len() implies keys.take(
        upto as int,
    )[k] != a@ by {
        assert(keys.take(upto as int)[k] == keys[k]);
    }
    false
}


/// Byte strings in the order `Vec<u8>` compares them: the first differing
/// byte decides, and a proper prefix comes first.
pub open spec fn bytes_lt(a: Seq<u8>, b: Seq<u8>) -> bool
    decreases a.len(),
{
    if a.len() == 0 {
        b.len() > 0
    } else if b.len() == 0 {
        false
    } else if a[0] != b[0] {
        a[0] < b[0]
    } else {
        bytes_lt(a.drop_first(), b.drop_first())
    }
}

/// Whether a list of identities ascends strictly in byte order.
pub open spec fn strictly_sorted(keys: Seq<Seq<u8>>) -> bool {
    forall|i: int, j: int| 0 <= i < j < keys.len() ==> bytes_lt(keys[i], keys[j])
}

/// No byte string comes before itself.
pub(crate) proof fn lemma_lt_irreflexive(a: Seq<u8>)
    ensures
        !bytes_lt(a, a),
    decreases a.len(),
{
    if a.len() > 0 {
        lemma_lt_irreflexive(a.drop_first());
    }
}

/// Of two different byte strings, one comes first.
proof fn lemma_lt_total(a: Seq<u8>, b: Seq<u8>)
    requires
        a != b,
    ensures
        bytes_lt(a, b) || bytes_lt(b, a),
    decreases a.len(),
{
    if a.len() > 0 && b.len() > 0 && a[0] == b[0] {
        if a.drop_first() == b.drop_first() {
            assert(a =~= seq![a[0]] + a.drop_first());
            assert(b =~= seq![b[0]] + b.drop_first());
        }
        lemma_lt_total(a.drop_first(), b.drop_first());
    } else if a.len() == 0 && b.len() == 0 {
        assert(a =~= b);
    }
}

/// Byte order is transitive.
pub(crate) proof fn lemma_lt_transitive(a: Seq<u8>, b: Seq<u8>, c: Seq<u8>)
    requires
        bytes_lt(a, b),
        bytes_lt(b, c),
    ensures
        bytes_lt(a, c),
    decreases a.len(),
{
    if a.len() > 0 && b.len() > 0 && c.len() > 0 && a[0] == b[0] && b[0] == c[0] {
        lemma_lt_transitive(a.drop_first(), b.drop_first(), c.drop_first());
    }
}

/// A strictly ascending list has no repeats.
proof fn lemma_sorted_no_duplicates(keys: Seq<Seq<u8>>)
    requires
        strictly_sorted(keys),
    ensures
        keys.no_duplicates(),
{
    assert forall|i: int, j: int| 0 <= i < keys.len() && 0 <= j < keys.len() && i != j implies keys[i]
        != keys[j] by {
        if i < j {
            lemma_lt_irreflexive(keys[i]);
        } else {
            lemma_lt_irreflexive(keys[j]);
        }
    }
}

/// Whether `a` comes before `b` in byte order.
fn bytes_less(a: &[u8], b: &[u8]) -> (less: bool)
    ensures
        less == bytes_lt(a@, b@),
{
    let mut i: usize = 0;
    assert(a@.skip(0) =~= a@);
    assert(b@.skip(0) =~= b@);
    while i < a.len() && i < b.len()
        invariant
            i <= a@.len(),
            i <= b@.len(),
            bytes_lt(a@, b@) == bytes_lt(a@.skip(i as int), b@.skip(i as int)),
        decreases a@.len() - i,
    {
        if a[i] != b[i] {
            assert(a@.skip(i as int)[0] == a@[i as int]);
            assert(b@.skip(i as int)[0] == b@[i as int]);
            return a[i] < b[i];
        }
        assert(a@.skip(i as int).drop_first() =~= a@.skip(i + 1));
        assert(b@.skip(i as int).drop_first() =~= b@.skip(i + 1));
        i = i + 1;
    }
    b.len() > i
}

/// Put a copy of `a` into the ascending list `out` unless it is there.
fn insert_sorted(out: &mut Vec<Approver>, a: &Approver)
    requires
        strictly_sorted(approver_keys(old(out)@)),
    ensures
        strictly_sorted(approver_keys(final(out)@)),
        approver_keys(final(out)@).to_set() == approver_keys(old(out)@).to_set().insert(a@),
{
    let ghost before = approver_keys(out@);
    let n = out.len();
    let mut j: usize = 0;
    while j < n
        invariant
            n == out@.len(),
            j <= n,
            before == approver_keys(out@),
            out@ == old(out)@,
            strictly_sorted(before),
            forall|k: int| 0 <= k < j ==> bytes_lt(#[trigger] before[k], a@),
        decreases n - j,
    {
        if out[j].same_as(a) {
            assert(before.to_set().contains(a@)) by {
                assert(before[j as int] == a@);
            }
            assert(before.to_set().insert(a@) =~= before.to_set());
            return;
        }
        if bytes_less(a.as_bytes(), out[j].as_bytes()) {
            out.insert(j, Approver::from_bytes(a.as_bytes()));
            let ghost after = approver_keys(out@);
            assert(after =~= before.insert(j as int, a@));
            assert forall|x: int, y: int| 0 <= x < y < after.len() implies bytes_lt(
                after[x],
                after[y],
            ) by {
                if y < j {
                } else if y == j {
                } else if x < j {
                    assert(after[y] == before[y - 1]);
                    if x < y - 1 {
                    }
                    lemma_lt_transitive(before[x], a@, before[j as int]);
                    if y - 1 > j {
                        lemma_lt_transitive(before[x], before[j as int], before[y - 1]);
                    }
                } else if x == j {
                    assert(after[y] == before[y - 1]);
                    if y - 1 > j {
                        lemma_lt_transitive(a@, before[j as int], before[y - 1]);
                    }
                } else {
                    assert(after[x] == before[x - 1]);
                    assert(after[y] == before[y - 1]);
                }
            }
            assert(after.to_set() =~= before.to_set().insert(a@)) by {
                assert forall|k: Seq<u8>| after.to_set().contains(k) implies before.to_set().insert(
                    a@,
                ).contains(k) by {
                    let m = choose|m: int| 0 <= m < after.len() && after[m] == k;
                    if m < j {
                        assert(before[m] == k);
                    } else if m > j {
                        assert(before[m - 1] == k);
                    }
                }
                assert forall|k: Seq<u8>| before.to_set().insert(a@).contains(k) implies after.to_set().contains(
                    k,
                ) by {
                    if k == a@ {
                        assert(after[j as int] == k);
                    } else {
                        let m = choose|m: int| 0 <= m < before.len() && before[m] == k;
                        if m < j {
                            assert(after[m] == k);
                        } else {
                            assert(after[m + 1] == k);
                        }
                    }
                }
            }
            return;
        }
        proof {
            lemma_lt_total(a@, before[j as int]);
        }
        j = j + 1;
    }
    out.push(Approver::from_bytes(a.as_bytes()));
    let ghost after = approver_keys(out@);
    assert(after =~= before.push(a@));
    proof {
        before.lemma_push_to_set_commute(a@);
    }
}

/// Taking one more element of a sequence adds that element to its set.
proof fn lemma_take_succ_to_set<A>(s: Seq<A>, i: int)
    requires
        0 <= i < s.len(),
    ensures
        s.take(i + 1).to_set() == s.take(i).to_set().insert(s[i]),
        s.take(i).to_set().finite(),
{
    assert(s.take(i + 1) =~= s.take(i).push(s[i]));
    s.take(i).lemma_push_to_set_commute(s[i]);
    seq_to_set_is_finite(s.take(i));
}

impl Policy {
    /// The identities this policy names.
    pub open spec fn members(&self) -> Set<Seq<u8>> {
        approver_keys(self.approvers@).to_set()
    }

    /// A policy whose approvals need no signature: the approver is
    /// authenticated by the IC as the caller of an update call. The
    /// approvers are kept as a set: each identity once, in ascending byte
    /// order.
    pub fn new(approvers: Vec<Approver>, threshold: u32) -> (p: Policy)
        ensures
            p.members() == approver_keys(approvers@).to_set(),
            strictly_sorted(approver_keys(p.approvers@)),
            approver_keys(p.approvers@).no_duplicates(),
            p.threshold == threshold,
            !p.require_signature,
    {
        let ghost keys = approver_keys(approvers@);
        let mut out: Vec<Approver> = Vec::new();
        let n = approvers.len();
        for i in 0..n
            invariant
                n == approvers@.len(),
                keys == approver_keys(approvers@),
                approver_keys(out@).to_set() == keys.take(i as int).to_set(),
                strictly_sorted(approver_keys(out@)),
        {
            proof {
                lemma_take_succ_to_set(keys, i as int);
            }
            insert_sorted(&mut out, &approvers[i]);
        }
        assert(keys.take(n as int) =~= keys);
        proof {
            lemma_sorted_no_duplicates(approver_keys(out@));
        }
        Policy { approvers: out, threshold, require_signature: false }
    }

    /// The same, with `require_signature` set: every approval must carry a
    /// signature over [`Approval::message`](crate::Approval::message).
    pub fn signed(approvers: Vec<Approver>, threshold: u32) -> (p: Policy)
        ensures
            p.members() == approver_keys(approvers@).to_set(),
            strictly_sorted(approver_keys(p.approvers@)),
            approver_keys(p.approvers@).no_duplicates(),
            p.threshold == threshold,
            p.require_signature,
    {
        let p = Policy::new(approvers, threshold);
        Policy { require_signature: true, ..p }
    }

    /// Whether `a` is named by this policy right now. Membership is checked
    /// at tally time, not at cast time, so removing an approver retires
    /// their ballot too.
    pub fn is_approver(&self, a: &Approver) -> (yes: bool)
        ensures
            yes == self.members().contains(a@),
    {
        let found = listed_before(&self.approvers, self.approvers.len(), a);
        assert(approver_keys(self.approvers@).take(self.approvers@.len() as int) =~= approver_keys(
            self.approvers@,
        ));
        found
    }

    /// How many distinct identities the policy names.
    fn distinct_approvers(&self) -> (n: usize)
        ensures
            n == self.members().len(),
    {
        let ghost keys = approver_keys(self.approvers@);
        let len = self.approvers.len();
        let mut n: usize = 0;
        assert(keys.take(0).to_set() =~= Set::<Seq<u8>>::empty());
        for i in 0..len
            invariant
                len == self.approvers@.len(),
                keys == approver_keys(self.approvers@),
                n == keys.take(i as int).to_set().len(),
                n <= i,
        {
            proof {
                lemma_take_succ_to_set(keys, i as int);
                assert(keys.take(i as int).contains(keys[i as int]) <==> keys.take(
                    i as int,
                ).to_set().contains(keys[i as int]));
            }
            if !listed_before(&self.approvers, i, &self.approvers[i]) {
                n = n + 1;
            } else {
                assert(keys.take(i as int).to_set().insert(keys[i as int]) =~= keys.take(
                    i as int,
                ).to_set());
            }
        }
        assert(keys.take(len as int) =~= keys);
        n
    }

    /// A threshold no set of approvers could ever reach is a configuration
    /// error, not a very strict policy. [`record`](crate::record) calls
    /// this before anything else.
    pub fn validate(&self) -> (r: Result<(), Error>)
        ensures
            r is Ok <==> self.threshold <= self.members().len(),
            r is Err ==> (r matches Err(Error::InvalidPolicy(m)) && m@ == excess_message(
                self.threshold as nat,
                self.members().len(),
            )),
    {
        let n = self.distinct_approvers();
        if self.threshold as usize > n {
            return Err(Error::InvalidPolicy(excess_message_text(self.threshold, n)));
        }
        Ok(())
    }
}

impl Default for Policy {
    /// No approvers, threshold zero, no signatures required.
    fn default() -> (p: Policy)
        ensures
            p.approvers@.len() == 0,
            p.threshold == 0,
            !p.require_signature,
    {
        Policy { approvers: Vec::new(), threshold: 0, require_signature: false }
    }
}

} // verus!
