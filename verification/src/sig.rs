//! Signatures over the 64-byte header, checked before any variable-length parsing.
//!
//! ```text
//! 0x00 alg u16 (1 = Ed25519)  0x02 flags u16  0x04 reserved[4]
//! 0x08 keyid[32] = BLAKE3 of the public key
//! 0x28 sig[64] over BLAKE3(header[0x00..0x40])   0x68 reserved[8]
//! ```

use vstd::prelude::*;

use crate::error::Error;
use crate::hashing::{blake3_digest, blake3_hash};
use crate::header::{Header, HEADER_LEN, SIG_LEN};
use crate::raw::{all_zero, all_zero_spec, bytes_at, hash_at, in_bounds, le16, u16_at};

verus! {

pub const ALG_ED25519: u16 = 1;

pub const FLAG_PUBLISHER: u16 = 1;

pub const FLAG_ENDORSEMENT: u16 = 2;

pub const FLAG_TRANSPARENCY: u16 = 4;

#[derive(Debug, Clone, Copy)]
pub struct SigEntry {
    pub alg: u16,
    pub flags: u16,
    pub keyid: [u8; 32],
    pub sig: [u8; 64],
}

/// What a caller is willing to accept. Whether an unsigned file is usable is policy, not
/// format: `sig_count = 0` is well-formed and `require_signature` decides if it is allowed.
/// Keys are raw Ed25519 public keys.
#[derive(Debug, Clone)]
pub struct TrustPolicy {
    pub require_signature: bool,
    pub keys: Vec<[u8; 32]>,
}

/// Whether an Ed25519 signature verifies strictly under a public key.
pub uninterp spec fn ed25519_verified(key: Seq<u8>, msg: Seq<u8>, sig: Seq<u8>) -> bool;

/// `ed25519_dalek::VerifyingKey::from_bytes` followed by `verify_strict` on
/// `Signature::from_bytes`: whether `sig` is a valid strict Ed25519 signature of `msg` under
/// `key`, named by its arguments. Key bytes that are not a valid point verify nothing.
#[verifier::external_body]
fn ed25519_verify_strict(key: &[u8; 32], msg: &[u8; 32], sig: &[u8; 64]) -> (r: bool)
    ensures
        r == ed25519_verified(key@, msg@, sig@),
{
    match ed25519_dalek::VerifyingKey::from_bytes(key) {
        Ok(k) => k.verify_strict(msg, &ed25519_dalek::Signature::from_bytes(sig)).is_ok(),
        Err(_) => false,
    }
}

impl TrustPolicy {
    /// Accepts unsigned files and verifies nothing.
    pub fn permissive() -> (p: TrustPolicy)
        ensures
            !p.require_signature,
            p.keys@.len() == 0,
    {
        TrustPolicy { require_signature: false, keys: Vec::new() }
    }

    /// Requires at least one valid signature from one of `keys`.
    pub fn require_any_of(keys: Vec<[u8; 32]>) -> (p: TrustPolicy)
        ensures
            p.require_signature,
            p.keys@ == keys@,
    {
        TrustPolicy { require_signature: true, keys }
    }

    /// The trusted key whose BLAKE3 digest is `keyid`, if any.
    pub fn key_for(&self, keyid: &[u8; 32]) -> (r: Option<usize>)
        ensures
            r matches Some(i) ==> i < self.keys@.len() && blake3_digest(self.keys@[i as int]@)
                == keyid@ && forall|j: int|
                0 <= j < i ==> blake3_digest(#[trigger] self.keys@[j]@) != keyid@,
            r is None ==> forall|i: int|
                0 <= i < self.keys@.len() ==> blake3_digest(#[trigger] self.keys@[i]@) != keyid@,
    {
        let mut i: usize = 0;
        while i < self.keys.len()
            invariant
                0 <= i <= self.keys@.len(),
                forall|j: int|
                    0 <= j < i ==> blake3_digest(#[trigger] self.keys@[j]@) != keyid@,
            decreases self.keys@.len() - i,
        {
            let h = blake3_hash(self.keys[i].as_slice());
            if crate::raw::bytes_eq(h.as_slice(), keyid.as_slice()) {
                return Some(i);
            }
            i += 1;
        }
        None
    }
}

fn sig_at(b: &[u8], off: usize) -> (r: Result<[u8; 64], Error>)
    ensures
        r is Ok <==> in_bounds(b@.len() as int, off as int, 64),
        r matches Ok(s) ==> s@ == b@.subrange(off as int, off + 64),
{
    let s = bytes_at(b, off, 64)?;
    let mut out = [0u8; 64];
    let mut i: usize = 0;
    while i < 64
        invariant
            0 <= i <= 64,
            s@.len() == 64,
            out@.len() == 64,
            forall|j: int| 0 <= j < i ==> out@[j] == s@[j],
        decreases 64 - i,
    {
        out.set(i, s[i]);
        i += 1;
    }
    assert(out@ =~= s@);
    Ok(out)
}

/// Entry `i` of the signature block as read from `b`.
pub open spec fn entry_reads(b: Seq<u8>, i: int, e: SigEntry) -> bool {
    let o = 64 + 112 * i;
    &&& e.alg == le16(b, o)
    &&& e.flags == le16(b, o + 2)
    &&& e.keyid@ == b.subrange(o + 8, o + 40)
    &&& e.sig@ == b.subrange(o + 0x28, o + 0x68)
    &&& all_zero_spec(b.subrange(o + 4, o + 8))
    &&& all_zero_spec(b.subrange(o + 0x68, o + 0x70))
}

/// Some trusted key has this key id.
pub open spec fn known_key(policy: TrustPolicy, keyid: Seq<u8>) -> bool {
    exists|k: int| 0 <= k < policy.keys@.len() && blake3_digest(policy.keys@[k]@) == keyid
}

/// Whether entry `e` is a signature a key of `policy` vouches for.
pub open spec fn trusted_by(policy: TrustPolicy, digest: Seq<u8>, e: SigEntry) -> bool {
    e.alg == ALG_ED25519 && exists|k: int|
        0 <= k < policy.keys@.len() && blake3_digest(policy.keys@[k]@) == e.keyid@
            && ed25519_verified(policy.keys@[k]@, digest, e.sig@)
}

/// What an accepted signature block guarantees: every entry is read from the block with its
/// reserved bytes zero, key ids are distinct, every entry from a trusted key under the Ed25519
/// algorithm verifies over the header digest, and a policy that requires a signature has one.
pub open spec fn sigs_ok(b: Seq<u8>, sig_count: u16, policy: TrustPolicy, entries: Seq<SigEntry>) -> bool {
    let digest = blake3_digest(b.subrange(0, 64));
    &&& entries.len() == sig_count
    &&& forall|i: int| 0 <= i < sig_count ==> entry_reads(b, i, #[trigger] entries[i])
    &&& forall|i: int, j: int| 0 <= i < j < sig_count ==> entries[i].keyid@ != entries[j].keyid@
    &&& forall|i: int|
        0 <= i < sig_count && (#[trigger] entries[i]).alg == ALG_ED25519 && known_key(
            policy,
            entries[i].keyid@,
        ) ==> trusted_by(policy, digest, entries[i])
    &&& policy.require_signature ==> exists|i: int|
        0 <= i < sig_count && trusted_by(policy, digest, #[trigger] entries[i])
}

/// Key `k` is the first trusted key whose BLAKE3 digest is `keyid`: the one a signature with
/// that key id is checked against.
pub open spec fn first_key(policy: TrustPolicy, keyid: Seq<u8>, k: int) -> bool {
    &&& 0 <= k < policy.keys@.len()
    &&& blake3_digest(policy.keys@[k]@) == keyid
    &&& forall|j: int| 0 <= j < k ==> blake3_digest(#[trigger] policy.keys@[j]@) != keyid
}

/// The algorithm of signature entry `i` in `b`.
pub open spec fn alg_of(b: Seq<u8>, i: int) -> int {
    le16(b, 64 + 112 * i)
}

/// The key id of signature entry `i` in `b`.
pub open spec fn keyid_of(b: Seq<u8>, i: int) -> Seq<u8> {
    b.subrange(64 + 112 * i + 8, 64 + 112 * i + 40)
}

/// The signature bytes of entry `i` in `b`.
pub open spec fn sig_of(b: Seq<u8>, i: int) -> Seq<u8> {
    b.subrange(64 + 112 * i + 0x28, 64 + 112 * i + 0x68)
}

/// Entry `i` claims an Ed25519 signature by a key the policy trusts.
pub open spec fn claims_trusted(b: Seq<u8>, i: int, policy: TrustPolicy) -> bool {
    alg_of(b, i) == ALG_ED25519 && known_key(policy, keyid_of(b, i))
}

/// When a signature block of `sig_count` entries is accepted: every entry lies inside the file
/// with its reserved bytes zero, no key id occurs twice, every Ed25519 entry from a trusted key
/// verifies over the header digest under the first trusted key with that id, and a policy that
/// requires a signature finds one such entry.
pub open spec fn sigs_accepted(b: Seq<u8>, sig_count: u16, policy: TrustPolicy) -> bool {
    let digest = blake3_digest(b.subrange(0, 64));
    &&& 64 + 112 * sig_count <= b.len()
    &&& forall|i: int|
        0 <= i < sig_count ==> all_zero_spec(#[trigger] b.subrange(64 + 112 * i + 4, 64 + 112 * i + 8))
            && all_zero_spec(b.subrange(64 + 112 * i + 0x68, 64 + 112 * i + 0x70))
    &&& forall|i: int, j: int| 0 <= i < j < sig_count ==> #[trigger] keyid_of(b, i) != #[trigger] keyid_of(b, j)
    &&& forall|i: int, k: int|
        0 <= i < sig_count && alg_of(b, i) == ALG_ED25519 && #[trigger] first_key(policy, keyid_of(b, i), k)
            ==> ed25519_verified(policy.keys@[k]@, digest, sig_of(b, i))
    &&& policy.require_signature ==> exists|i: int| 0 <= i < sig_count && #[trigger] claims_trusted(b, i, policy)
}

/// Reads and checks the signature block. Runs before any variable-length parsing.
pub fn verify(bytes: &[u8], sig_count: u16, policy: &TrustPolicy) -> (r: Result<
    Vec<SigEntry>,
    Error,
>)
    requires
        bytes@.len() >= 64,
    ensures
        r is Ok <==> sigs_accepted(bytes@, sig_count, *policy),
        r matches Ok(entries) ==> sigs_ok(bytes@, sig_count, *policy, entries@),
        policy.require_signature && sig_count == 0 ==> r == Err::<Vec<SigEntry>, Error>(
            Error::Unsigned,
        ),
{
    let mut entries: Vec<SigEntry> = Vec::new();
    let digest = Header::signing_digest(bytes);
    let mut i: u16 = 0;
    while i < sig_count
        invariant
            i <= sig_count,
            entries@.len() == i,
            64 + 112 * i <= bytes@.len(),
            forall|j: int| 0 <= j < i ==> entry_reads(bytes@, j, #[trigger] entries@[j]),
        decreases sig_count - i,
    {
        let off = HEADER_LEN + SIG_LEN * i as usize;
        assert(off == 64 + 112 * i);
        match all_zero(bytes, off + 0x04, 4, "sig reserved 0x04") {
            Ok(()) => {},
            Err(e) => {
                proof {
                    if 64 + 112 * sig_count <= bytes@.len() {
                        assert(!all_zero_spec(bytes@.subrange(64 + 112 * i + 4, 64 + 112 * i + 8)));
                    }
                }
                return Err(e);
            },
        }
        match all_zero(bytes, off + 0x68, 8, "sig reserved 0x68") {
            Ok(()) => {},
            Err(e) => {
                proof {
                    if 64 + 112 * sig_count <= bytes@.len() {
                        assert(!all_zero_spec(bytes@.subrange(64 + 112 * i + 0x68, 64 + 112 * i + 0x70)));
                        assert(bytes@.subrange(64 + 112 * i + 4, 64 + 112 * i + 8) == bytes@.subrange(
                            64 + 112 * i + 4,
                            64 + 112 * i + 8,
                        ));
                    }
                }
                return Err(e);
            },
        }
        let sig = sig_at(bytes, off + 0x28)?;
        let alg = u16_at(bytes, off)?;
        let flags = u16_at(bytes, off + 0x02)?;
        let keyid = hash_at(bytes, off + 0x08)?;
        let ghost prev = entries@;
        entries.push(SigEntry { alg, flags, keyid, sig });
        proof {
            assert forall|j: int| 0 <= j < i + 1 implies entry_reads(bytes@, j, #[trigger] entries@[j]) by {
                if j < i {
                    assert(entries@[j] == prev[j]);
                }
            }
        }
        i += 1;
    }
    let n = entries.len();
    let mut a: usize = 0;
    while a < n
        invariant
            n == entries@.len(),
            0 <= a <= n,
            forall|x: int, y: int| 0 <= x < a && x < y < n ==> entries@[x].keyid@ != entries@[y].keyid@,
        decreases n - a,
    {
        let mut b: usize = a + 1;
        while b < n
            invariant
                n == entries@.len(),
                0 <= a < b <= n,
                forall|x: int, y: int|
                    0 <= x < a && x < y < n ==> entries@[x].keyid@ != entries@[y].keyid@,
                forall|y: int| a < y < b ==> entries@[a as int].keyid@ != entries@[y].keyid@,
            decreases n - b,
        {
            if crate::raw::bytes_eq(entries[a].keyid.as_slice(), entries[b].keyid.as_slice()) {
                proof {
                    assert(entry_reads(bytes@, a as int, entries@[a as int]));
                    assert(entry_reads(bytes@, b as int, entries@[b as int]));
                    assert(keyid_of(bytes@, a as int) == keyid_of(bytes@, b as int));
                }
                return Err(Error::DuplicateKeyId);
            }
            b += 1;
        }
        a += 1;
    }
    proof {
        assert forall|x: int, y: int| 0 <= x < y < sig_count implies #[trigger] keyid_of(bytes@, x)
            != #[trigger] keyid_of(bytes@, y) by {
            assert(entry_reads(bytes@, x, entries@[x]));
            assert(entry_reads(bytes@, y, entries@[y]));
        }
        assert forall|x: int| 0 <= x < sig_count implies all_zero_spec(
            #[trigger] bytes@.subrange(64 + 112 * x + 4, 64 + 112 * x + 8),
        ) && all_zero_spec(bytes@.subrange(64 + 112 * x + 0x68, 64 + 112 * x + 0x70)) by {
            assert(entry_reads(bytes@, x, entries@[x]));
        }
    }
    let mut trusted: usize = 0;
    let mut k: usize = 0;
    while k < n
        invariant
            n == entries@.len(),
            n == sig_count,
            0 <= k <= n,
            trusted <= k,
            digest@ == blake3_digest(bytes@.subrange(0, 64)),
            forall|j: int| 0 <= j < sig_count ==> entry_reads(bytes@, j, #[trigger] entries@[j]),
            forall|j: int, q: int|
                0 <= j < k && alg_of(bytes@, j) == ALG_ED25519 && #[trigger] first_key(
                    *policy,
                    keyid_of(bytes@, j),
                    q,
                ) ==> ed25519_verified(policy.keys@[q]@, digest@, sig_of(bytes@, j)),
            trusted > 0 <==> exists|j: int| 0 <= j < k && #[trigger] claims_trusted(bytes@, j, *policy),
            forall|j: int|
                0 <= j < k && (#[trigger] entries@[j]).alg == ALG_ED25519 && known_key(
                    *policy,
                    entries@[j].keyid@,
                ) ==> trusted_by(*policy, digest@, entries@[j]),
            trusted > 0 ==> exists|j: int|
                0 <= j < k && trusted_by(*policy, digest@, #[trigger] entries@[j]),
        decreases n - k,
    {
        let e = entries[k];
        proof {
            assert(entry_reads(bytes@, k as int, entries@[k as int]));
        }
        let ghost before = trusted;
        match policy.key_for(&e.keyid) {
            None => {
                assert(!known_key(*policy, keyid_of(bytes@, k as int)));
            },
            Some(q) => {
                assert(first_key(*policy, keyid_of(bytes@, k as int), q as int));
                if e.alg == ALG_ED25519 {
                    if !ed25519_verify_strict(&policy.keys[q], &digest, &e.sig) {
                        assert(!sigs_accepted(bytes@, sig_count, *policy));
                        return Err(Error::BadSignature(k as u16));
                    }
                    trusted += 1;
                    assert(trusted_by(*policy, digest@, entries@[k as int]));
                    assert(claims_trusted(bytes@, k as int, *policy));
                }
            },
        }
        proof {
            assert forall|j: int, q2: int|
                0 <= j < k + 1 && alg_of(bytes@, j) == ALG_ED25519 && #[trigger] first_key(
                    *policy,
                    keyid_of(bytes@, j),
                    q2,
                ) implies ed25519_verified(policy.keys@[q2]@, digest@, sig_of(bytes@, j)) by {
                if j == k {
                    let q = choose|q: int| first_key(*policy, keyid_of(bytes@, j), q) && q == q;
                    if first_key(*policy, keyid_of(bytes@, j), q2) {
                        assert(known_key(*policy, keyid_of(bytes@, j)));
                    }
                }
            }
        }
        k += 1;
    }
    if policy.require_signature && trusted == 0 {
        if n == 0 {
            return Err(Error::Unsigned);
        }
        return Err(Error::UntrustedKey(Box::new(entries[0].keyid)));
    }
    assert(entries@.len() == sig_count);
    assert(forall|i: int| 0 <= i < sig_count ==> entry_reads(bytes@, i, #[trigger] entries@[i]));
    assert(forall|i: int, j: int|
                0 <= i < j < sig_count ==> entries@[i].keyid@ != entries@[j].keyid@);
    assert(policy.require_signature ==> exists|i: int|
                0 <= i < sig_count && trusted_by(*policy, digest@, #[trigger] entries@[i]));
    assert(forall|i: int|
                0 <= i < sig_count && (#[trigger] entries@[i]).alg == ALG_ED25519 && known_key(
                    *policy,
                    entries@[i].keyid@,
                ) ==> trusted_by(*policy, digest@, entries@[i]));
    assert(digest@ == blake3_digest(bytes@.subrange(0, 64)));
    assert(sigs_ok(bytes@, sig_count, *policy, entries@));
    Ok(entries)
}

} // verus!
