use sha2::{Digest, Sha256};
use vstd::prelude::*;
use vstd::string::*;
use vstd::utf8::*;

verus! {

/// Domain separator for everything this crate hashes or signs: the ASCII
/// bytes of `ic-multisig/v1`. Bump on any change to the canonical encodings.
pub const DOMAIN: [u8; 14] = [105, 99, 45, 109, 117, 108, 116, 105, 115, 105, 103, 47, 118, 49];

/// What is being approved: a kind tag (`"commit"`, `"module"`, `"tally"`)
/// and a 32-byte hash. The tag keeps a commit approval from ever counting as
/// a module approval with the same bytes.
#[derive(Clone, PartialEq, Eq, PartialOrd, Ord, Hash, Debug)]
pub struct Subject {
    /// What the hash is of. Consumers agree on these out of band.
    pub kind: String,
    /// The 32 bytes being approved.
    pub hash: [u8; 32],
}

/// A subject as the contracts see it: the kind's characters and the hash bytes.
#[verifier::ext_equal]
pub struct SubjectView {
    pub kind: Seq<char>,
    pub hash: Seq<u8>,
}

impl View for Subject {
    type V = SubjectView;

    open spec fn view(&self) -> SubjectView {
        SubjectView { kind: self.kind@, hash: self.hash@ }
    }
}

/// The canonical bytes of a subject: DOMAIN || 0 || utf8(kind) || 0 || hash.
pub open spec fn canonical_bytes(s: SubjectView) -> Seq<u8> {
    DOMAIN@ + seq![0u8] + encode_utf8(s.kind) + seq![0u8] + s.hash
}

/// What a short identifier is hashed from: utf8(kind) || 0 || raw.
pub open spec fn short_hash_input(kind: Seq<char>, raw: Seq<u8>) -> Seq<u8> {
    encode_utf8(kind) + seq![0u8] + raw
}

/// One lowercase hexadecimal digit for a value below 16.
pub open spec fn hex_digit(n: u8) -> char {
    if n < 10 {
        (n + 48) as char
    } else {
        (n + 87) as char
    }
}

/// Lowercase hexadecimal, two digits per byte, high nibble first.
pub open spec fn lower_hex(bytes: Seq<u8>) -> Seq<char>
    decreases bytes.len(),
{
    if bytes.len() == 0 {
        seq![]
    } else {
        seq![hex_digit(bytes[0] / 16), hex_digit(bytes[0] % 16)] + lower_hex(bytes.drop_first())
    }
}

/// The SHA-256 digest of a byte string.
pub uninterp spec fn sha256(data: Seq<u8>) -> Seq<u8>;

/// `sha2::Sha256::digest`: the 32-byte SHA-256 digest of `data`, named by
/// [`sha256`]; nothing is claimed about which bytes it is.
#[verifier::external_body]
fn sha256_digest(data: &[u8]) -> (digest: [u8; 32])
    ensures
        digest@ == sha256(data@),
{
    Sha256::digest(data).into()
}

/// `hex::encode`: lowercase hexadecimal, two digits per input byte, high
/// nibble first (the crate's `HEX_CHARS_LOWER` table).
#[verifier::external_body]
pub(crate) fn hex_encode(bytes: &[u8]) -> (text: String)
    ensures
        text@ == lower_hex(bytes@),
{
    hex::encode(bytes)
}

/// Append `src` to `out`.
pub(crate) fn append_bytes(out: &mut Vec<u8>, src: &[u8])
    ensures
        final(out)@ == old(out)@ + src@,
{
    let n = src.len();
    for i in 0..n
        invariant
            n == src@.len(),
            out@ == old(out)@ + src@.take(i as int),
    {
        out.push(src[i]);
        assert(src@.take(i + 1) =~= src@.take(i as int).push(src@[i as int]));
    }
    assert(src@.take(n as int) =~= src@);
}

impl Subject {
    /// A subject over a hash that is already 32 bytes -- a sha256 digest, an
    /// IC module hash.
    pub fn new(kind: &str, hash: [u8; 32]) -> (s: Subject)
        ensures
            s@ == (SubjectView { kind: kind@, hash: hash@ }),
    {
        Subject { kind: String::from_str(kind), hash }
    }

    /// A subject whose hash is the sha256 of `bytes`.
    pub fn of_bytes(kind: &str, bytes: &[u8]) -> (s: Subject)
        ensures
            s@ == (SubjectView { kind: kind@, hash: sha256(bytes@) }),
    {
        let hash = sha256_digest(bytes);
        Subject::new(kind, hash)
    }

    /// A subject for a hash shorter than 32 bytes (a git SHA-1 commit, say):
    /// the hash is sha256(kind || 0 || raw). The kind goes into the hash as
    /// well as beside it, so the same raw bytes under two kinds never collide
    /// even before the tag is compared.
    pub fn of_short_hash(kind: &str, raw: &[u8]) -> (s: Subject)
        ensures
            s@ == (SubjectView { kind: kind@, hash: sha256(short_hash_input(kind@, raw@)) }),
            s@.hash == sha256(encode_utf8(kind@) + seq![0u8] + raw@),
    {
        let mut input: Vec<u8> = Vec::new();
        append_bytes(&mut input, kind.as_bytes());
        input.push(0);
        append_bytes(&mut input, raw);
        assert(input@ =~= short_hash_input(kind@, raw@));
        let hash = sha256_digest(input.as_slice());
        Subject::new(kind, hash)
    }

    /// Canonical bytes: DOMAIN || 0 || kind || 0 || hash.
    pub fn canonical(&self) -> (out: Vec<u8>)
        ensures
            out@ == canonical_bytes(self@),
            out@ == DOMAIN@ + seq![0u8] + encode_utf8(self.kind@) + seq![0u8] + self.hash@,
    {
        let mut out: Vec<u8> = Vec::new();
        append_bytes(&mut out, DOMAIN.as_slice());
        out.push(0);
        append_bytes(&mut out, self.kind.as_str().as_bytes());
        out.push(0);
        append_bytes(&mut out, self.hash.as_slice());
        out
    }

    /// A storage key: `<kind>:<hex hash>`. Stable across releases, so a
    /// canister's stable map keyed by this survives an upgrade.
    pub fn key(&self) -> (k: String)
        ensures
            k@ == self.kind@ + ":"@ + lower_hex(self.hash@),
    {
        let mut k = String::from_str(self.kind.as_str());
        k.append(":");
        let h = hex_encode(self.hash.as_slice());
        k.append(h.as_str());
        k
    }

    /// A copy with the same view.
    pub(crate) fn copy_of(&self) -> (c: Subject)
        ensures
            c@ == self@,
    {
        Subject { kind: self.kind.clone(), hash: self.hash }
    }

    /// Whether two subjects have the same kind and hash.
    pub(crate) fn same_as(&self, other: &Subject) -> (same: bool)
        ensures
            same == (self@ == other@),
    {
        if self.kind != other.kind {
            return false;
        }
        let mut i: usize = 0;
        while i < 32
            invariant
                i <= 32,
                forall|j: int| 0 <= j < i ==> self.hash[j] == other.hash[j],
            decreases 32 - i,
        {
            if self.hash[i] != other.hash[i] {
                return false;
            }
            i = i + 1;
        }
        assert(self@.hash =~= other@.hash);
        assert(self@ =~= other@);
        true
    }
}

} // verus!
