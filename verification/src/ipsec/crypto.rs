//! Cryptographic primitives reused from dual-licensed crates and wired into
//! the IKEv2 key schedule (RFC 7296 §2.13–§2.15): HMAC-based PRFs and
//! integrity checksums, AES in CBC mode (the chaining is done here, block by
//! block) and AES-GCM, X25519 and the MODP Diffie-Hellman groups.

use vstd::prelude::*;
use vstd::arithmetic::power::pow;
use crate::digits::be_value;
use vstd::string::StringSliceAdditionalSpecFns;
use crate::ipsec::error::Error;
use crate::ipsec::types::{DhGroup, EncrId, IntegId, PrfId};
use crate::primitives::{
    aes_decrypt, aes_decrypt_block, aes_encrypt, aes_encrypt_block, hmac_sha1, hmac_sha1_tag, hmac_sha256,
    hmac_sha256_tag, hmac_sha384, hmac_sha384_tag, hmac_sha512, hmac_sha512_tag, xor_block, xor_seq,
};
use aes_gcm::aead::AeadInPlace;
use aes_gcm::KeyInit;

verus! {

// ---------------------------------------------------------------------------
// Outside primitives
// ---------------------------------------------------------------------------

/// AES-GCM sealing (crate `aes-gcm`): the ciphertext followed by the
/// 16-octet tag, under a 16- or 32-octet key and a 12-octet nonce.
pub uninterp spec fn gcm_seal(key: Seq<u8>, nonce: Seq<u8>, aad: Seq<u8>, plaintext: Seq<u8>) -> Seq<u8>;

/// AES-GCM opening (crate `aes-gcm`): the plaintext when the tag at the end
/// of `sealed` verifies, nothing otherwise.
pub uninterp spec fn gcm_open(key: Seq<u8>, nonce: Seq<u8>, aad: Seq<u8>, sealed: Seq<u8>) -> Option<Seq<u8>>;

/// `Aes128Gcm` / `Aes256Gcm` `encrypt_in_place` (crate `aes-gcm`): fails only
/// when the plaintext or the associated data exceeds 2^36 octets; otherwise
/// the buffer becomes the ciphertext (as long as the plaintext) followed by
/// the 16-octet tag, which `decrypt_in_place` under the same key, nonce and
/// associated data opens back to the plaintext (the AEAD contract the
/// crate documents).
#[verifier::external_body]
fn gcm_encrypt(key: &[u8], nonce: &[u8], aad: &[u8], plaintext: &[u8]) -> (r: Option<Vec<u8>>)
    requires
        key@.len() == 16 || key@.len() == 32,
        nonce@.len() == 12,
    ensures
        r is Some <==> (plaintext@.len() <= 0x1000000000 && aad@.len() <= 0x1000000000),
        r matches Some(v) ==> v@ == gcm_seal(key@, nonce@, aad@, plaintext@) && v@.len() == plaintext@.len() + 16,
        r matches Some(v) ==> gcm_open(key@, nonce@, aad@, v@) == Some(plaintext@),
{
    let mut buf = plaintext.to_vec();
    let n = aes_gcm::Nonce::from_slice(nonce);
    let res = if key.len() == 16 {
        aes_gcm::Aes128Gcm::new_from_slice(key).expect("length checked").encrypt_in_place(n, aad, &mut buf)
    } else {
        aes_gcm::Aes256Gcm::new_from_slice(key).expect("length checked").encrypt_in_place(n, aad, &mut buf)
    };
    res.ok().map(|_| buf)
}

/// `Aes128Gcm` / `Aes256Gcm` `decrypt_in_place` (crate `aes-gcm`): the
/// plaintext when the trailing tag verifies.
#[verifier::external_body]
fn gcm_decrypt(key: &[u8], nonce: &[u8], aad: &[u8], sealed: &[u8]) -> (r: Option<Vec<u8>>)
    requires
        key@.len() == 16 || key@.len() == 32,
        nonce@.len() == 12,
    ensures
        match r {
            Some(v) => gcm_open(key@, nonce@, aad@, sealed@) == Some(v@),
            None => gcm_open(key@, nonce@, aad@, sealed@) is None,
        },
{
    let mut buf = sealed.to_vec();
    let n = aes_gcm::Nonce::from_slice(nonce);
    let res = if key.len() == 16 {
        aes_gcm::Aes128Gcm::new_from_slice(key).expect("length checked").decrypt_in_place(n, aad, &mut buf)
    } else {
        aes_gcm::Aes256Gcm::new_from_slice(key).expect("length checked").decrypt_in_place(n, aad, &mut buf)
    };
    res.ok().map(|_| buf)
}

/// Every octet is zero.
pub open spec fn all_zero(s: Seq<u8>) -> bool {
    forall|i: int| 0 <= i < s.len() ==> s[i] == 0
}

/// The X25519 public key of a 32-octet private scalar (the scalar is clamped
/// as RFC 7748 specifies).
pub uninterp spec fn x25519_base(private: Seq<u8>) -> Seq<u8>;

/// The X25519 shared point of a 32-octet private scalar and a 32-octet public
/// key.
pub uninterp spec fn x25519_point(private: Seq<u8>, public: Seq<u8>) -> Seq<u8>;

/// `x25519::orion::hazardous::ecc::x25519::PrivateKey::from_slice` and `orion::hazardous::ecc::x25519::PublicKey::try_from` (crate
/// `orion`): fails exactly when the private key is not 32 octets; the public
/// key is 32 octets.
#[verifier::external_body]
fn orion_x25519_public(private: &[u8]) -> (r: Option<Vec<u8>>)
    ensures
        r is Some <==> private@.len() == 32,
        r matches Some(p) ==> p@ == x25519_base(private@) && p@.len() == 32,
{
    let sk = orion::hazardous::ecc::x25519::PrivateKey::from_slice(private).ok()?;
    let pk = orion::hazardous::ecc::x25519::PublicKey::try_from(&sk).ok()?;
    Some(pk.to_bytes().to_vec())
}

/// `x25519::key_agreement` (crate `orion`): fails when either key is not 32
/// octets or the shared point is all zeros (a low-order peer key).
#[verifier::external_body]
fn orion_x25519_shared(private: &[u8], public: &[u8]) -> (r: Option<Vec<u8>>)
    ensures
        r is Some <==> (private@.len() == 32 && public@.len() == 32 && !all_zero(x25519_point(private@, public@))),
        r matches Some(s) ==> s@ == x25519_point(private@, public@),
{
    let sk = orion::hazardous::ecc::x25519::PrivateKey::from_slice(private).ok()?;
    let pk = orion::hazardous::ecc::x25519::PublicKey::from_slice(public).ok()?;
    let sh = orion::hazardous::ecc::x25519::key_agreement(&sk, &pk).ok()?;
    Some(sh.unprotected_as_bytes().to_vec())
}

/// `x25519::PrivateKey::generate` (crate `orion`): a fresh random 32-octet
/// private key (as stored, i.e. clamped) and its public key.
#[verifier::external_body]
fn orion_x25519_generate() -> (r: (Vec<u8>, Vec<u8>))
    ensures
        r.0@.len() == 32,
        r.1@ == x25519_base(r.0@),
        r.1@.len() == 32,
{
    let sk = orion::hazardous::ecc::x25519::PrivateKey::generate();
    let pk = orion::hazardous::ecc::x25519::PublicKey::try_from(&sk).expect("a generated key is 32 octets");
    (sk.unprotected_as_bytes().to_vec(), pk.to_bytes().to_vec())
}

/// An ASCII hexadecimal digit.
pub open spec fn is_hex(c: u8) -> bool {
    (0x30 <= c <= 0x39) || (0x41 <= c <= 0x46) || (0x61 <= c <= 0x66)
}

/// The value of an ASCII hexadecimal digit.
pub open spec fn hex_digit(c: u8) -> nat {
    if 0x30 <= c <= 0x39 {
        (c - 0x30) as nat
    } else if 0x41 <= c <= 0x46 {
        (c - 0x41 + 10) as nat
    } else {
        (c - 0x61 + 10) as nat
    }
}

/// Every octet is a hexadecimal digit.
pub open spec fn all_hex(s: Seq<u8>) -> bool {
    forall|i: int| 0 <= i < s.len() ==> #[trigger] is_hex(s[i])
}

/// The value of a string of hexadecimal digits, most significant first.
pub open spec fn hex_value(s: Seq<u8>) -> nat
    decreases s.len(),
{
    if s.len() == 0 {
        0
    } else {
        hex_value(s.drop_last()) * 16 + hex_digit(s.last())
    }
}

/// The shortest big-endian octets of `v` (a single zero octet for zero).
pub open spec fn canonical_be(s: Seq<u8>, v: nat) -> bool {
    s.len() >= 1 && be_value(s) == v && (s.len() > 1 ==> s[0] != 0)
}

/// `BigUint::modpow` (crate `num-bigint`), with the operands and result
/// converted from and to big-endian octets (`from_bytes_be`,
/// `to_bytes_be`): `base^exp mod modulus`; it panics for a zero modulus.
#[verifier::external_body]
fn biguint_modpow(base: &[u8], exp: &[u8], modulus: &[u8]) -> (r: Vec<u8>)
    requires
        be_value(modulus@) > 0,
    ensures
        canonical_be(r@, (pow(be_value(base@) as int, be_value(exp@)) % (be_value(modulus@) as int)) as nat),
{
    let b = num_bigint::BigUint::from_bytes_be(base);
    let e = num_bigint::BigUint::from_bytes_be(exp);
    let m = num_bigint::BigUint::from_bytes_be(modulus);
    b.modpow(&e, &m).to_bytes_be()
}

/// `BigUint::parse_bytes` in base 16 (crate `num-bigint`), converted to
/// big-endian octets: for a non-empty string of hexadecimal digits, the
/// shortest octets of the value it spells.
#[verifier::external_body]
fn biguint_parse_hex(hex: &[u8]) -> (r: Option<Vec<u8>>)
    ensures
        match r {
            Some(v) => hex@.len() > 0 && all_hex(hex@) ==> canonical_be(v@, hex_value(hex@)),
            None => !(hex@.len() > 0 && all_hex(hex@)),
        },
{
    num_bigint::BigUint::parse_bytes(hex, 16).map(|b| b.to_bytes_be())
}

/// `getrandom::getrandom` (crate `getrandom`) into a buffer of `n` octets:
/// `n` random octets (it panics only when the system has no secure random
/// source).
#[verifier::external_body]
fn getrandom_bytes(n: usize) -> (r: Vec<u8>)
    ensures
        r@.len() == n,
{
    let mut buf = vec![0u8; n];
    getrandom::getrandom(&mut buf).expect("secure RNG unavailable");
    buf
}

// ---------------------------------------------------------------------------
// Pseudo-Random Function (PRF)
// ---------------------------------------------------------------------------

/// A negotiated IKEv2 PRF (always HMAC-based in this implementation).
#[derive(Debug, Clone, Copy, PartialEq, Eq, Structural)]
pub enum Prf {
    /// HMAC-SHA-1.
    Sha1,
    /// HMAC-SHA-256.
    Sha256,
    /// HMAC-SHA-384.
    Sha384,
    /// HMAC-SHA-512.
    Sha512,
}

/// The HMAC with the hash of the PRF.
pub open spec fn prf_spec(p: Prf, key: Seq<u8>, data: Seq<u8>) -> Seq<u8> {
    match p {
        Prf::Sha1 => hmac_sha1(key, data),
        Prf::Sha256 => hmac_sha256(key, data),
        Prf::Sha384 => hmac_sha384(key, data),
        Prf::Sha512 => hmac_sha512(key, data),
    }
}

impl Prf {
    /// The output size of the PRF in octets.
    pub open spec fn spec_output_len(self) -> usize {
        match self {
            Prf::Sha1 => 20,
            Prf::Sha256 => 32,
            Prf::Sha384 => 48,
            Prf::Sha512 => 64,
        }
    }

    /// The PRF of a negotiated PRF transform.
    pub fn from_id(id: PrfId) -> (p: Prf)
        ensures
            p == (match id {
                PrfId::HmacSha1 => Prf::Sha1,
                PrfId::HmacSha256 => Prf::Sha256,
                PrfId::HmacSha384 => Prf::Sha384,
                PrfId::HmacSha512 => Prf::Sha512,
            }),
    {
        match id {
            PrfId::HmacSha1 => Prf::Sha1,
            PrfId::HmacSha256 => Prf::Sha256,
            PrfId::HmacSha384 => Prf::Sha384,
            PrfId::HmacSha512 => Prf::Sha512,
        }
    }

    /// The output size of the PRF in octets.
    pub fn output_len(self) -> (n: usize)
        ensures
            n == self.spec_output_len(),
    {
        match self {
            Prf::Sha1 => 20,
            Prf::Sha256 => 32,
            Prf::Sha384 => 48,
            Prf::Sha512 => 64,
        }
    }

    /// `prf(K, data)` — a single PRF block.
    pub fn prf(self, key: &[u8], data: &[u8]) -> (r: Vec<u8>)
        ensures
            r@ == prf_spec(self, key@, data@),
            r@.len() == self.spec_output_len(),
    {
        match self {
            Prf::Sha1 => hmac_sha1_tag(key, data),
            Prf::Sha256 => hmac_sha256_tag(key, data),
            Prf::Sha384 => hmac_sha384_tag(key, data),
            Prf::Sha512 => hmac_sha512_tag(key, data),
        }
    }

    /// `prf+(K, seed)` — the key-expansion function of RFC 7296 §2.13:
    /// `T1 | T2 | ...` with `Ti = prf(K, T{i-1} | seed)`, `T0 = ""`,
    /// truncated to `n` octets.
    pub fn prf_plus(self, key: &[u8], seed: &[u8], n: usize) -> (r: Vec<u8>)
        requires
            n + 64 <= usize::MAX,
        ensures
            r@ == prf_plus_spec(self, key@, seed@, n as nat),
            r@.len() == n,
    {
        let ghost len = self.spec_output_len() as nat;
        let mut out: Vec<u8> = Vec::new();
        let mut t: Vec<u8> = Vec::new();
        let ghost mut k: nat = 0;
        proof {
            assert(prf_stream(self, key@, seed@, 0) =~= Seq::<u8>::empty());
            assert(prf_block(self, key@, seed@, 0) =~= Seq::<u8>::empty());
        }
        while out.len() < n
            invariant
                len == self.spec_output_len(),
                len > 0,
                out@ == prf_stream(self, key@, seed@, k),
                out@.len() == k * len,
                t@ == prf_block(self, key@, seed@, k),
                k == 0 || (k - 1) * len < n,
                n + 64 <= usize::MAX,
            decreases n + 64 - out@.len(),
        {
            let mut data = vstd::slice::slice_to_vec(t.as_slice());
            data.extend_from_slice(seed);
            assert(data@ =~= t@ + seed@);
            let blk = self.prf(key, data.as_slice());
            proof {
                assert(((k + 1) * len) == k * len + len) by (nonlinear_arith);
                assert((((k + 1) as nat) - 1) * len == k * len) by (nonlinear_arith);
            }
            out.extend_from_slice(blk.as_slice());
            proof {
                k = k + 1;
                assert(out@ =~= prf_stream(self, key@, seed@, k));
            }
            t = blk;
        }
        proof {
            if n > 0 {
                assert(k > 0);
                lemma_blocks_for(n as nat, len, k);
            } else {
                assert((len - 1) / (len as int) == 0) by (nonlinear_arith)
                    requires
                        len > 0,
                ;
                if k > 0 {
                    assert((k - 1) * len >= 0) by (nonlinear_arith)
                        requires
                            k >= 1,
                    ;
                }
                assert(k == 0);
            }
        }
        out.truncate(n);
        out
    }
}

/// The block `T_k` of `prf+`: `T_0` is empty, `T_k = prf(K, T_{k-1} | seed)`.
pub open spec fn prf_block(p: Prf, key: Seq<u8>, seed: Seq<u8>, k: nat) -> Seq<u8>
    decreases k,
{
    if k == 0 {
        Seq::empty()
    } else {
        prf_spec(p, key, prf_block(p, key, seed, (k - 1) as nat) + seed)
    }
}

/// `prf+(key, seed)` truncated to `n` octets: the first `n` octets of
/// `T_1 | T_2 | ...`, computing whole blocks.
pub open spec fn prf_plus_spec(p: Prf, key: Seq<u8>, seed: Seq<u8>, n: nat) -> Seq<u8> {
    prf_stream(p, key, seed, blocks_for(n, p.spec_output_len() as nat)).subrange(0, n as int)
}

/// `T_1 | ... | T_k`.
pub open spec fn prf_stream(p: Prf, key: Seq<u8>, seed: Seq<u8>, k: nat) -> Seq<u8>
    decreases k,
{
    if k == 0 {
        Seq::empty()
    } else {
        prf_stream(p, key, seed, (k - 1) as nat) + prf_block(p, key, seed, k)
    }
}

/// The number of blocks of `len` octets that `n` octets take (at least one
/// block is always computed for `n > 0`).
pub open spec fn blocks_for(n: nat, len: nat) -> nat {
    if len == 0 {
        0
    } else {
        ((n + len - 1) / (len as int)) as nat
    }
}

pub(crate) proof fn lemma_blocks_for(n: nat, len: nat, k: nat)
    requires
        len > 0,
        k * len >= n,
        (k as int - 1) * len < n,
    ensures
        k == blocks_for(n, len),
{
    let q = (n + len - 1) / (len as int);
    vstd::arithmetic::div_mod::lemma_fundamental_div_mod((n + len - 1) as int, len as int);
    let r = (n + len - 1) % (len as int);
    assert(0 <= r < len);
    assert(n + len - 1 == len * q + r);
    if k < q {
        assert(k * len <= (q - 1) * len) by (nonlinear_arith)
            requires
                k <= q - 1,
                len > 0,
        ;
        assert((q - 1) * len == q * len - len) by (nonlinear_arith);
        assert(q * len == len * q) by (nonlinear_arith);
    }
    if k > q {
        assert((k - 1) * len >= q * len) by (nonlinear_arith)
            requires
                k - 1 >= q,
                len > 0,
        ;
        assert(q * len == len * q) by (nonlinear_arith);
    }
}

// ---------------------------------------------------------------------------
// Integrity algorithm
// ---------------------------------------------------------------------------

/// A negotiated IKEv2 integrity algorithm (used for the SK ICV / AUTH MAC).
#[derive(Debug, Clone, Copy, PartialEq, Eq, Structural)]
pub enum Integ {
    /// HMAC-SHA1-96.
    HmacSha1_96,
    /// HMAC-SHA2-256-128.
    HmacSha256_128,
    /// HMAC-SHA2-384-192.
    HmacSha384_192,
    /// HMAC-SHA2-512-256.
    HmacSha512_256,
}

/// The full HMAC of the integrity algorithm.
pub open spec fn mac_spec(i: Integ, key: Seq<u8>, data: Seq<u8>) -> Seq<u8> {
    match i {
        Integ::HmacSha1_96 => hmac_sha1(key, data),
        Integ::HmacSha256_128 => hmac_sha256(key, data),
        Integ::HmacSha384_192 => hmac_sha384(key, data),
        Integ::HmacSha512_256 => hmac_sha512(key, data),
    }
}

impl Integ {
    /// The key length in octets (the full MAC length).
    pub open spec fn spec_key_len(self) -> usize {
        match self {
            Integ::HmacSha1_96 => 20,
            Integ::HmacSha256_128 => 32,
            Integ::HmacSha384_192 => 48,
            Integ::HmacSha512_256 => 64,
        }
    }

    /// The truncated ICV length in octets.
    pub open spec fn spec_icv_len(self) -> usize {
        match self {
            Integ::HmacSha1_96 => 12,
            Integ::HmacSha256_128 => 16,
            Integ::HmacSha384_192 => 24,
            Integ::HmacSha512_256 => 32,
        }
    }

    /// The integrity algorithm of a negotiated integrity transform.
    pub fn from_id(id: IntegId) -> (i: Integ)
        ensures
            i == (match id {
                IntegId::HmacSha1_96 => Integ::HmacSha1_96,
                IntegId::HmacSha256_128 => Integ::HmacSha256_128,
                IntegId::HmacSha384_192 => Integ::HmacSha384_192,
                IntegId::HmacSha512_256 => Integ::HmacSha512_256,
            }),
    {
        match id {
            IntegId::HmacSha1_96 => Integ::HmacSha1_96,
            IntegId::HmacSha256_128 => Integ::HmacSha256_128,
            IntegId::HmacSha384_192 => Integ::HmacSha384_192,
            IntegId::HmacSha512_256 => Integ::HmacSha512_256,
        }
    }

    /// The key length in octets.
    pub fn key_len(self) -> (n: usize)
        ensures
            n == self.spec_key_len(),
    {
        match self {
            Integ::HmacSha1_96 => 20,
            Integ::HmacSha256_128 => 32,
            Integ::HmacSha384_192 => 48,
            Integ::HmacSha512_256 => 64,
        }
    }

    /// Truncated ICV length.
    pub fn icv_len(self) -> (n: usize)
        ensures
            n == self.spec_icv_len(),
    {
        match self {
            Integ::HmacSha1_96 => 12,
            Integ::HmacSha256_128 => 16,
            Integ::HmacSha384_192 => 24,
            Integ::HmacSha512_256 => 32,
        }
    }

    /// Full MAC (length `key_len`).
    pub fn mac(self, key: &[u8], data: &[u8]) -> (r: Vec<u8>)
        ensures
            r@ == mac_spec(self, key@, data@),
            r@.len() == self.spec_key_len(),
    {
        match self {
            Integ::HmacSha1_96 => hmac_sha1_tag(key, data),
            Integ::HmacSha256_128 => hmac_sha256_tag(key, data),
            Integ::HmacSha384_192 => hmac_sha384_tag(key, data),
            Integ::HmacSha512_256 => hmac_sha512_tag(key, data),
        }
    }

    /// Truncated integrity checksum value: the first `icv_len` octets of the
    /// MAC.
    pub fn icv(self, key: &[u8], data: &[u8]) -> (r: Vec<u8>)
        ensures
            r@ == mac_spec(self, key@, data@).subrange(0, self.spec_icv_len() as int),
            r@.len() == self.spec_icv_len(),
    {
        let full = self.mac(key, data);
        vstd::slice::slice_to_vec(&full.as_slice()[0..self.icv_len()])
    }
}

// ---------------------------------------------------------------------------
// Encryption algorithm
// ---------------------------------------------------------------------------

/// A negotiated IKEv2 encryption algorithm.
#[derive(Debug, Clone, Copy, PartialEq, Eq, Structural)]
pub enum Encr {
    /// AES in CBC mode.
    AesCbc {
        /// The key length in octets.
        key_len: usize,
    },
    /// AES-GCM.
    AesGcm {
        /// The key length in octets.
        key_len: usize,
    },
}

/// CBC encryption of whole blocks: each block is XORed with the previous
/// ciphertext block (the IV first) and encrypted.
pub open spec fn cbc_enc(key: Seq<u8>, prev: Seq<u8>, pt: Seq<u8>) -> Seq<u8>
    decreases pt.len(),
{
    if pt.len() < 16 {
        Seq::empty()
    } else {
        let c = aes_encrypt_block(key, xor_seq(pt.subrange(0, 16), prev));
        c + cbc_enc(key, c, pt.subrange(16, pt.len() as int))
    }
}

/// CBC decryption of whole blocks: each block is decrypted and XORed with the
/// previous ciphertext block (the IV first).
pub open spec fn cbc_dec(key: Seq<u8>, prev: Seq<u8>, ct: Seq<u8>) -> Seq<u8>
    decreases ct.len(),
{
    if ct.len() < 16 {
        Seq::empty()
    } else {
        let blk = ct.subrange(0, 16);
        xor_seq(aes_decrypt_block(key, blk), prev) + cbc_dec(key, blk, ct.subrange(16, ct.len() as int))
    }
}

/// Every block a CBC encryption of `pt` chained from `prev` encrypts comes
/// back out of AES decryption under the same key, and encrypts to a whole
/// block: what the cipher states of each block it encrypts.
pub open spec fn cbc_invertible_on(key: Seq<u8>, prev: Seq<u8>, pt: Seq<u8>) -> bool
    decreases pt.len(),
{
    if pt.len() < 16 {
        true
    } else {
        let b = xor_seq(pt.subrange(0, 16), prev);
        let c = aes_encrypt_block(key, b);
        &&& c.len() == 16
        &&& aes_decrypt_block(key, c) == b
        &&& cbc_invertible_on(key, c, pt.subrange(16, pt.len() as int))
    }
}

/// CBC decryption undoes CBC encryption of whole blocks chained from the same
/// IV, for blocks the cipher inverts; the ciphertext is as long as the
/// plaintext.
pub proof fn lemma_cbc_dec_enc(key: Seq<u8>, prev: Seq<u8>, pt: Seq<u8>)
    requires
        prev.len() >= 16,
        pt.len() % 16 == 0,
        cbc_invertible_on(key, prev, pt),
    ensures
        cbc_enc(key, prev, pt).len() == pt.len(),
        cbc_dec(key, prev, cbc_enc(key, prev, pt)) == pt,
    decreases pt.len(),
{
    if pt.len() == 0 {
        assert(cbc_enc(key, prev, pt) =~= Seq::<u8>::empty());
        assert(cbc_dec(key, prev, Seq::<u8>::empty()) =~= pt);
    } else {
        let p0 = pt.subrange(0, 16);
        let rest = pt.subrange(16, pt.len() as int);
        let blk = xor_seq(p0, prev);
        let c = aes_encrypt_block(key, blk);
        lemma_cbc_dec_enc(key, c, rest);
        let ct = cbc_enc(key, prev, pt);
        assert(ct == c + cbc_enc(key, c, rest));
        assert(ct.subrange(0, 16) =~= c);
        assert(ct.subrange(16, ct.len() as int) =~= cbc_enc(key, c, rest));
        assert(xor_seq(blk, prev) =~= p0) by {
            assert forall|i: int| 0 <= i < 16 implies #[trigger] xor_seq(blk, prev)[i] == p0[i] by {
                let x = p0[i];
                let y = prev[i];
                assert((x ^ y) ^ y == x) by (bit_vector);
            }
        }
        assert(cbc_dec(key, prev, ct) =~= pt);
    }
}

/// The error for a key that does not fit the cipher: the key length the
/// algorithm names is not an AES one, or the key has another length.
pub open spec fn key_error(key_len: usize, key: Seq<u8>) -> Option<Seq<char>> {
    if key_len != 16 && key_len != 24 && key_len != 32 {
        Some("unsupported AES key length"@)
    } else if key.len() != key_len {
        Some("Invalid Length"@)
    } else {
        None
    }
}

fn check_aes_key(key_len: usize, key: &[u8]) -> (r: Result<(), Error>)
    ensures
        match key_error(key_len, key@) {
            Some(m) => r matches Err(Error::Crypto(s)) && s@ == m,
            None => r is Ok,
        },
{
    if key_len != 16 && key_len != 24 && key_len != 32 {
        return Err(Error::Crypto(String::from_str("unsupported AES key length")));
    }
    if key.len() != key_len {
        return Err(Error::Crypto(String::from_str("Invalid Length")));
    }
    Ok(())
}

impl Encr {
    /// The key length in octets.
    pub open spec fn spec_key_len(self) -> usize {
        match self {
            Encr::AesCbc { key_len } => key_len,
            Encr::AesGcm { key_len } => key_len,
        }
    }

    /// The encryption algorithm of a negotiated encryption transform.
    pub fn from_id(id: EncrId) -> (e: Encr)
        ensures
            e == (match id {
                EncrId::AesCbc128 => Encr::AesCbc { key_len: 16 },
                EncrId::AesCbc192 => Encr::AesCbc { key_len: 24 },
                EncrId::AesCbc256 => Encr::AesCbc { key_len: 32 },
                EncrId::AesGcm16_128 => Encr::AesGcm { key_len: 16 },
                EncrId::AesGcm16_192 => Encr::AesGcm { key_len: 24 },
                EncrId::AesGcm16_256 => Encr::AesGcm { key_len: 32 },
            }),
    {
        match id {
            EncrId::AesCbc128 => Encr::AesCbc { key_len: 16 },
            EncrId::AesCbc192 => Encr::AesCbc { key_len: 24 },
            EncrId::AesCbc256 => Encr::AesCbc { key_len: 32 },
            EncrId::AesGcm16_128 => Encr::AesGcm { key_len: 16 },
            EncrId::AesGcm16_192 => Encr::AesGcm { key_len: 24 },
            EncrId::AesGcm16_256 => Encr::AesGcm { key_len: 32 },
        }
    }

    /// The key length in octets.
    pub fn key_len(self) -> (n: usize)
        ensures
            n == self.spec_key_len(),
    {
        match self {
            Encr::AesCbc { key_len } => key_len,
            Encr::AesGcm { key_len } => key_len,
        }
    }

    /// Whether this is an AEAD algorithm.
    pub fn is_aead(self) -> (b: bool)
        ensures
            b == (self is AesGcm),
    {
        match self {
            Encr::AesGcm { .. } => true,
            Encr::AesCbc { .. } => false,
        }
    }

    /// The cipher block size in octets.
    pub fn block_size(self) -> (n: usize)
        ensures
            n == 16,
    {
        16
    }

    /// CBC IV length (one AES block).
    pub fn cbc_iv_len(self) -> (n: usize)
        ensures
            n == 16,
    {
        16
    }

    /// Encrypt using CBC mode with caller-supplied plaintext already padded.
    pub fn cbc_encrypt(self, key: &[u8], iv: &[u8], plaintext: &[u8]) -> (r: Result<Vec<u8>, Error>)
        requires
            plaintext@.len() % 16 == 0,
            iv@.len() >= 16,
        ensures
            match key_error(self.spec_key_len(), key@) {
                Some(m) => r matches Err(Error::Crypto(s)) && s@ == m,
                None => r matches Ok(c) && c@ == cbc_enc(key@, iv@, plaintext@) && c@.len() == plaintext@.len()
                    && cbc_invertible_on(key@, iv@, plaintext@),
            },
    {
        check_aes_key(self.key_len(), key)?;
        let mut out: Vec<u8> = Vec::new();
        let mut prev = vstd::slice::slice_to_vec(iv);
        let mut pos: usize = 0;
        assert(plaintext@.subrange(0, plaintext@.len() as int) =~= plaintext@);
        assert(out@ + cbc_enc(key@, iv@, plaintext@) =~= cbc_enc(key@, iv@, plaintext@));
        while pos < plaintext.len()
            invariant
                pos <= plaintext@.len(),
                pos % 16 == 0,
                plaintext@.len() % 16 == 0,
                prev@.len() >= 16,
                key@.len() == 16 || key@.len() == 24 || key@.len() == 32,
                cbc_enc(key@, iv@, plaintext@) == out@ + cbc_enc(
                    key@,
                    prev@,
                    plaintext@.subrange(pos as int, plaintext@.len() as int),
                ),
                cbc_invertible_on(key@, prev@, plaintext@.subrange(pos as int, plaintext@.len() as int))
                    ==> cbc_invertible_on(key@, iv@, plaintext@),
            decreases plaintext.len() - pos,
        {
            let chunk = &plaintext[pos..pos + 16];
            let block = xor_block(chunk, prev.as_slice());
            let c = aes_encrypt(key, block.as_slice());
            proof {
                let rest = plaintext@.subrange(pos as int, plaintext@.len() as int);
                assert(rest.subrange(0, 16) =~= chunk@);
                assert(rest.subrange(16, rest.len() as int) =~= plaintext@.subrange(pos + 16, plaintext@.len() as int));
                assert(out@ + c@ + cbc_enc(key@, c@, plaintext@.subrange(pos + 16, plaintext@.len() as int))
                    =~= out@ + (c@ + cbc_enc(key@, c@, plaintext@.subrange(pos + 16, plaintext@.len() as int))));
                assert(block@ == xor_seq(rest.subrange(0, 16), prev@));
            }
            out.extend_from_slice(c.as_slice());
            prev = c;
            pos = pos + 16;
        }
        proof {
            assert(plaintext@.subrange(pos as int, plaintext@.len() as int).len() == 0);
            assert(out@ + Seq::<u8>::empty() =~= out@);
            lemma_cbc_dec_enc(key@, iv@, plaintext@);
        }
        Ok(out)
    }

    /// Decrypt using CBC mode (no padding removal — caller strips IKE padding).
    pub fn cbc_decrypt(self, key: &[u8], iv: &[u8], ciphertext: &[u8]) -> (r: Result<Vec<u8>, Error>)
        ensures
            match key_error(self.spec_key_len(), key@) {
                Some(m) => r matches Err(Error::Crypto(s)) && s@ == m,
                None => if ciphertext@.len() % 16 != 0 {
                    r == Err::<Vec<u8>, Error>(Error::DecryptFailed)
                } else {
                    r matches Ok(p) && p@ == cbc_dec(key@, iv@, ciphertext@)
                },
            },
    {
        check_aes_key(self.key_len(), key)?;
        if ciphertext.len() % 16 != 0 {
            return Err(Error::DecryptFailed);
        }
        let mut out: Vec<u8> = Vec::new();
        let mut prev = vstd::slice::slice_to_vec(iv);
        let mut pos: usize = 0;
        assert(ciphertext@.subrange(0, ciphertext@.len() as int) =~= ciphertext@);
        assert(out@ + cbc_dec(key@, iv@, ciphertext@) =~= cbc_dec(key@, iv@, ciphertext@));
        while pos < ciphertext.len()
            invariant
                pos <= ciphertext@.len(),
                pos % 16 == 0,
                ciphertext@.len() % 16 == 0,
                key@.len() == 16 || key@.len() == 24 || key@.len() == 32,
                cbc_dec(key@, iv@, ciphertext@) == out@ + cbc_dec(
                    key@,
                    prev@,
                    ciphertext@.subrange(pos as int, ciphertext@.len() as int),
                ),
            decreases ciphertext.len() - pos,
        {
            let chunk = &ciphertext[pos..pos + 16];
            let d = aes_decrypt(key, chunk);
            let p = xor_block(d.as_slice(), prev.as_slice());
            proof {
                let rest = ciphertext@.subrange(pos as int, ciphertext@.len() as int);
                assert(rest.subrange(0, 16) =~= chunk@);
                assert(rest.subrange(16, rest.len() as int) =~= ciphertext@.subrange(pos + 16, ciphertext@.len() as int));
                assert(out@ + p@ + cbc_dec(key@, chunk@, ciphertext@.subrange(pos + 16, ciphertext@.len() as int))
                    =~= out@ + (p@ + cbc_dec(key@, chunk@, ciphertext@.subrange(pos + 16, ciphertext@.len() as int))));
            }
            out.extend_from_slice(p.as_slice());
            prev = vstd::slice::slice_to_vec(chunk);
            pos = pos + 16;
        }
        proof {
            assert(ciphertext@.subrange(pos as int, ciphertext@.len() as int).len() == 0);
            assert(out@ + Seq::<u8>::empty() =~= out@);
        }
        Ok(out)
    }
}


// ---------------------------------------------------------------------------
// AES-GCM
// ---------------------------------------------------------------------------

/// The error for an AES-GCM key: the algorithm is not AEAD, its key length is
/// not supported, or the key has another length.
pub open spec fn gcm_key_error(e: Encr, key: Seq<u8>) -> Option<Seq<char>> {
    match e {
        Encr::AesCbc { .. } => Some("algorithm is not AEAD"@),
        Encr::AesGcm { key_len } => if key_len == 24 {
            Some("AES-GCM-192 is unsupported by the aes-gcm crate"@)
        } else if key_len != 16 && key_len != 32 {
            Some("unsupported AES key length"@)
        } else if key.len() != key_len {
            Some("Invalid Length"@)
        } else {
            None
        },
    }
}

fn check_gcm_key(e: Encr, key: &[u8]) -> (r: Result<(), Error>)
    ensures
        match gcm_key_error(e, key@) {
            Some(m) => r matches Err(Error::Crypto(s)) && s@ == m,
            None => r is Ok,
        },
{
    match e {
        Encr::AesCbc { .. } => Err(Error::Crypto(String::from_str("algorithm is not AEAD"))),
        Encr::AesGcm { key_len } => {
            if key_len == 24 {
                return Err(Error::Crypto(String::from_str("AES-GCM-192 is unsupported by the aes-gcm crate")));
            }
            if key_len != 16 && key_len != 32 {
                return Err(Error::Crypto(String::from_str("unsupported AES key length")));
            }
            if key.len() != key_len {
                return Err(Error::Crypto(String::from_str("Invalid Length")));
            }
            Ok(())
        },
    }
}

impl Encr {
    /// AEAD encrypt (AES-GCM). `nonce` is 12 bytes (4-byte salt || 8-byte IV).
    /// Returns `(ciphertext, tag)`; `tag` is 16 bytes. `aad` is empty for IKEv2.
    pub fn aead_encrypt(self, key: &[u8], nonce: &[u8], plaintext: &[u8], aad: &[u8]) -> (r: Result<
        (Vec<u8>, Vec<u8>),
        Error,
    >)
        requires
            nonce@.len() == 12,
        ensures
            match gcm_key_error(self, key@) {
                Some(m) => r matches Err(Error::Crypto(s)) && s@ == m,
                None => if plaintext@.len() > 0x1000000000 || aad@.len() > 0x1000000000 {
                    r matches Err(Error::Crypto(s)) && s@ == "gcm encrypt failed"@
                } else {
                    r matches Ok((c, t)) && c@ + t@ == gcm_seal(key@, nonce@, aad@, plaintext@) && t@.len() == 16
                        && gcm_open(key@, nonce@, aad@, c@ + t@) == Some(plaintext@)
                },
            },
    {
        check_gcm_key(self, key)?;
        match gcm_encrypt(key, nonce, aad, plaintext) {
            Some(buf) => {
                let n = buf.len() - 16;
                let ct = vstd::slice::slice_to_vec(&buf.as_slice()[0..n]);
                let tag = vstd::slice::slice_to_vec(&buf.as_slice()[n..buf.len()]);
                assert(ct@ + tag@ =~= buf@);
                Ok((ct, tag))
            },
            None => Err(Error::Crypto(String::from_str("gcm encrypt failed"))),
        }
    }

    /// AEAD decrypt (AES-GCM). `ciphertext` and `tag` (16 bytes) are supplied
    /// separately; `aad` is empty for IKEv2.
    pub fn aead_decrypt(self, key: &[u8], nonce: &[u8], ciphertext: &[u8], tag: &[u8], aad: &[u8]) -> (r: Result<
        Vec<u8>,
        Error,
    >)
        requires
            nonce@.len() == 12,
        ensures
            match gcm_key_error(self, key@) {
                Some(m) => r matches Err(Error::Crypto(s)) && s@ == m,
                None => match gcm_open(key@, nonce@, aad@, ciphertext@ + tag@) {
                    Some(p) => r matches Ok(v) && v@ == p,
                    None => r == Err::<Vec<u8>, Error>(Error::DecryptFailed),
                },
            },
    {
        let mut buf = vstd::slice::slice_to_vec(ciphertext);
        buf.extend_from_slice(tag);
        assert(buf@ =~= ciphertext@ + tag@);
        check_gcm_key(self, key)?;
        match gcm_decrypt(key, nonce, aad, buf.as_slice()) {
            Some(p) => Ok(p),
            None => Err(Error::DecryptFailed),
        }
    }
}

// ---------------------------------------------------------------------------
// Diffie-Hellman
// ---------------------------------------------------------------------------

/// The 768-bit MODP prime (RFC 2409 group 1), in hexadecimal.
pub const MODP768_HEX: &'static str = "FFFFFFFFFFFFFFFFC90FDAA22168C234C4C6628B80DC1CD129024E088A67CC74020BBEA63B139B22514A08798E3404DDEF9519B3CD3A431B302B0A6DF25F14374FE1356D6D51C245E485B576625E7EC6F44C42E9A63A3620FFFFFFFFFFFFFFFF";

/// The 1024-bit MODP prime (RFC 2409 group 2), in hexadecimal.
pub const MODP1024_HEX: &'static str = "FFFFFFFFFFFFFFFFC90FDAA22168C234C4C6628B80DC1CD129024E088A67CC74020BBEA63B139B22514A08798E3404DDEF9519B3CD3A431B302B0A6DF25F14374FE1356D6D51C245E485B576625E7EC6F44C42E9A637ED6B0BFF5CB6F406B7EDEE386BFB5A899FA5AE9F24117C4B1FE649286651ECE65381FFFFFFFFFFFFFFFF";

/// The MODP prime of group 5, in hexadecimal.
pub const MODP1536_HEX: &'static str = "FFFFFFFFFFFFFFFFC90FDAA22168C234C4C6628B80DC1CD129024E088A67CC74020BBEA63B139B22514A08798E3404DDEF9519B3CD3A431B302B0A6DF25F14374FE1356D6D51C245E485B576625E7EC6F44C42E9A637ED6B0BFF5CB6F406B7EDEE386BFB5A899FA5AE9F24117C4B1FE649286651ECE45B3DC2007CB8A163BF0598DA48361C55D39A69163FA8FD24CF5F83655D23DCA3AD961C62F356208552BB9ED529077096966D670C354E4ABC9804F1746C08CA18217C32905E462E36CE3BE39E772C180E86039B2783A2EC07A28FB5C55DF06F4C52C9DE2BCBF6955817183995497CEA956AE515D2261898FA051015728E5A8AAAC42DAD33170D04507A33A85521ABDF1CBA64ECFB850458DBEF0A8AEA71575D060C7DB3970F85A6E1E4C7ABF5AE8CDB0933D71CFFF4B4E3F73B90";


/// Every character is an upper-case hexadecimal digit.
pub open spec fn hex_chars(s: Seq<char>) -> bool {
    forall|i: int| 0 <= i < s.len() ==> ('0' <= #[trigger] s[i] <= '9' || 'A' <= s[i] <= 'F')
}

proof fn lemma_hex_value_pos(s: Seq<u8>)
    requires
        s.len() > 0,
        all_hex(s),
        s[0] == 0x46,
    ensures
        hex_value(s) > 0,
    decreases s.len(),
{
    if s.len() > 1 {
        let t = s.drop_last();
        assert(t[0] == s[0]);
        assert forall|i: int| 0 <= i < t.len() implies #[trigger] is_hex(t[i]) by {
            assert(t[i] == s[i]);
        }
        lemma_hex_value_pos(t);
    }
}

/// The bundled primes are non-empty strings of hexadecimal digits, led by
/// `F`, so they spell a non-zero value.
proof fn lemma_prime_hex_ok(g: DhGroup)
    requires
        modp_prime_hex(g) is Some,
    ensures
        crate::text::utf8(modp_prime_hex(g)->0).len() > 0,
        all_hex(crate::text::utf8(modp_prime_hex(g)->0)),
        hex_value(crate::text::utf8(modp_prime_hex(g)->0)) > 0,
{
    let h = modp_prime_hex(g)->0;
    match g {
        DhGroup::Modp768 => {
            reveal_strlit("FFFFFFFFFFFFFFFFC90FDAA22168C234C4C6628B80DC1CD129024E088A67CC74020BBEA63B139B22514A08798E3404DDEF9519B3CD3A431B302B0A6DF25F14374FE1356D6D51C245E485B576625E7EC6F44C42E9A63A3620FFFFFFFFFFFFFFFF");
        },
        DhGroup::Modp1024 => {
            reveal_strlit("FFFFFFFFFFFFFFFFC90FDAA22168C234C4C6628B80DC1CD129024E088A67CC74020BBEA63B139B22514A08798E3404DDEF9519B3CD3A431B302B0A6DF25F14374FE1356D6D51C245E485B576625E7EC6F44C42E9A637ED6B0BFF5CB6F406B7EDEE386BFB5A899FA5AE9F24117C4B1FE649286651ECE65381FFFFFFFFFFFFFFFF");
        },
        _ => {
            reveal_strlit("FFFFFFFFFFFFFFFFC90FDAA22168C234C4C6628B80DC1CD129024E088A67CC74020BBEA63B139B22514A08798E3404DDEF9519B3CD3A431B302B0A6DF25F14374FE1356D6D51C245E485B576625E7EC6F44C42E9A637ED6B0BFF5CB6F406B7EDEE386BFB5A899FA5AE9F24117C4B1FE649286651ECE45B3DC2007CB8A163BF0598DA48361C55D39A69163FA8FD24CF5F83655D23DCA3AD961C62F356208552BB9ED529077096966D670C354E4ABC9804F1746C08CA18217C32905E462E36CE3BE39E772C180E86039B2783A2EC07A28FB5C55DF06F4C52C9DE2BCBF6955817183995497CEA956AE515D2261898FA051015728E5A8AAAC42DAD33170D04507A33A85521ABDF1CBA64ECFB850458DBEF0A8AEA71575D060C7DB3970F85A6E1E4C7ABF5AE8CDB0933D71CFFF4B4E3F73B90");
        },
    }
    assert(hex_chars(h));
    assert(h.len() > 0 && h[0] == 'F');
    assert(vstd::utf8::is_ascii_chars(h));
    vstd::utf8::is_ascii_chars_encode_utf8(h);
    let hb = crate::text::utf8(h);
    assert forall|i: int| 0 <= i < hb.len() implies #[trigger] is_hex(hb[i]) by {
        assert(h[i] as u8 == hb[i]);
    }
    assert(hb[0] == 0x46);
    lemma_hex_value_pos(hb);
}

/// The hexadecimal prime of a MODP group bundled here (the 2048-, 3072- and
/// 4096-bit groups are not).
pub open spec fn modp_prime_hex(g: DhGroup) -> Option<Seq<char>> {
    match g {
        DhGroup::Modp768 => Some(MODP768_HEX@),
        DhGroup::Modp1024 => Some(MODP1024_HEX@),
        DhGroup::Modp1536 => Some(MODP1536_HEX@),
        _ => None,
    }
}

fn modp_prime(g: DhGroup) -> (r: Option<&'static str>)
    ensures
        match modp_prime_hex(g) {
            Some(h) => r matches Some(s) && s@ == h,
            None => r is None,
        },
{
    match g {
        DhGroup::Modp768 => Some(MODP768_HEX),
        DhGroup::Modp1024 => Some(MODP1024_HEX),
        DhGroup::Modp1536 => Some(MODP1536_HEX),
        _ => None,
    }
}

/// `s` cut or zero-filled on the left to `len` octets.
pub open spec fn pad_seq(s: Seq<u8>, len: nat) -> Seq<u8> {
    if s.len() >= len {
        s.subrange(s.len() - len, s.len() as int)
    } else {
        Seq::new((len - s.len()) as nat, |i: int| 0u8) + s
    }
}

fn pad_be(bytes: &[u8], len: usize) -> (r: Vec<u8>)
    ensures
        r@ == pad_seq(bytes@, len as nat),
{
    if bytes.len() >= len {
        vstd::slice::slice_to_vec(&bytes[bytes.len() - len..bytes.len()])
    } else {
        let mut v: Vec<u8> = Vec::new();
        let fill = len - bytes.len();
        let mut i: usize = 0;
        while i < fill
            invariant
                i <= fill,
                v@ == Seq::new(i as nat, |k: int| 0u8),
            decreases fill - i,
        {
            v.push(0);
            i = i + 1;
            assert(v@ =~= Seq::new(i as nat, |k: int| 0u8));
        }
        v.extend_from_slice(bytes);
        v
    }
}

/// `g^x mod p` for the group's prime, as `len` octets: the value's shortest
/// big-endian octets, cut or zero-filled on the left.
pub open spec fn modp_out(c: Seq<u8>, base: Seq<u8>, x: Seq<u8>, prime: Seq<u8>, len: nat, out: Seq<u8>) -> bool {
    canonical_be(c, (pow(be_value(base) as int, be_value(x)) % (be_value(prime) as int)) as nat) && out == pad_seq(c, len)
}

/// `v` is the padded `base^x mod p` for a prime `p` spelled by the hex
/// digits `hb` (when they are hex digits at all), `p` being non-zero.
pub open spec fn modp_value(g: DhGroup, base: Seq<u8>, x: Seq<u8>, hb: Seq<u8>, v: Seq<u8>) -> bool {
    exists|c: Seq<u8>, p: Seq<u8>|
        #![trigger modp_out(c, base, x, p, g.spec_key_len() as nat, v)]
        (hb.len() > 0 && all_hex(hb) ==> canonical_be(p, hex_value(hb))) && be_value(p) > 0
            && modp_out(c, base, x, p, g.spec_key_len() as nat, v)
}

/// The outcome of a MODP exponentiation `base^x` in group `g`: the padded
/// result for a group with a bundled prime, or the error when it has none.
pub open spec fn modp_result(g: DhGroup, base: Seq<u8>, x: Seq<u8>, r: Result<Vec<u8>, Error>) -> bool {
    match modp_prime_hex(g) {
        None => r == Err::<Vec<u8>, Error>(Error::UnsupportedDhGroup(g.code())),
        Some(h) => r matches Ok(v) && modp_value(g, base, x, crate::text::utf8(h), v@),
    }
}

proof fn lemma_zero_value(s: Seq<u8>)
    requires
        forall|k: int| 0 <= k < s.len() ==> s[k] == 0,
    ensures
        be_value(s) == 0,
    decreases s.len(),
{
    if s.len() > 0 {
        let t = s.drop_last();
        assert forall|k: int| 0 <= k < t.len() implies t[k] == 0 by {
            assert(t[k] == s[k]);
        }
        lemma_zero_value(t);
    }
}

fn modp_pow(g: DhGroup, base: &[u8], x: &[u8]) -> (r: Result<Vec<u8>, Error>)
    ensures
        modp_result(g, base@, x@, r),
{
    let hex = match modp_prime(g) {
        Some(h) => h,
        None => return Err(Error::UnsupportedDhGroup(g.to_u16())),
    };
    let hb = hex.as_bytes();
    assert(hb@ == crate::text::utf8(hex@));
    proof {
        lemma_prime_hex_ok(g);
    }
    let p = match biguint_parse_hex(hb) {
        Some(p) => p,
        None => {
            assert(false);
            return Err(Error::Crypto(String::from_str("bad prime")));
        },
    };
    assert(hb@.len() > 0 && all_hex(hb@) ==> canonical_be(p@, hex_value(hb@)));
    let mut zero = true;
    let mut i: usize = 0;
    while i < p.len()
        invariant
            i <= p@.len(),
            zero == (forall|k: int| 0 <= k < i ==> p@[k] == 0),
        decreases p.len() - i,
    {
        if p[i] != 0 {
            zero = false;
        }
        i = i + 1;
    }
    if zero {
        proof {
            lemma_zero_value(p@);
        }
        assert(false);
        return Err(Error::Crypto(String::from_str("bad prime")));
    }
    proof {
        lemma_nonzero_value(p@);
    }
    let c = biguint_modpow(base, x, p.as_slice());
    let out = pad_be(c.as_slice(), g.key_len());
    assert(modp_out(c@, base@, x@, p@, g.spec_key_len() as nat, out@));
    assert((hb@.len() > 0 && all_hex(hb@) ==> canonical_be(p@, hex_value(hb@))) && be_value(p@) > 0);
    proof {
        let hh = crate::text::utf8(modp_prime_hex(g)->0);
        assert(hh == hb@);
        let len = g.spec_key_len() as nat;
        assert((hh.len() > 0 && all_hex(hh) ==> canonical_be(p@, hex_value(hh))) && be_value(p@) > 0
            && modp_out(c@, base@, x@, p@, len, out@));
        assert(modp_value(g, base@, x@, hh, out@));
    }
    Ok(out)
}

proof fn lemma_nonzero_value(s: Seq<u8>)
    requires
        exists|k: int| 0 <= k < s.len() && s[k] != 0,
    ensures
        be_value(s) > 0,
    decreases s.len(),
{
    let k = choose|k: int| 0 <= k < s.len() && s[k] != 0;
    if k == s.len() - 1 {
    } else {
        assert(s.drop_last()[k] == s[k]);
        lemma_nonzero_value(s.drop_last());
    }
}

/// A Diffie-Hellman key pair for a negotiated group.
#[derive(Debug, Clone)]
pub struct Dh {
    /// The group.
    pub group: DhGroup,
    /// The private value.
    pub private: Vec<u8>,
    /// The public value.
    pub public: Vec<u8>,
}

/// The public value of a private one in group `g`: the X25519 base-point
/// multiple, or `2^x mod p` for a MODP group.
pub open spec fn public_of(g: DhGroup, private: Seq<u8>, r: Result<Vec<u8>, Error>) -> bool {
    match g {
        DhGroup::Curve25519 => if private.len() == 32 {
            r matches Ok(p) && p@ == x25519_base(private) && p@.len() == 32
        } else {
            r matches Err(Error::Crypto(m)) && m@ == "UnknownCryptoError"@
        },
        _ => modp_result(g, seq![2u8], private, r),
    }
}

fn x25519_public(private: &[u8]) -> (r: Result<Vec<u8>, Error>)
    ensures
        public_of(DhGroup::Curve25519, private@, r),
{
    match orion_x25519_public(private) {
        Some(p) => Ok(p),
        None => Err(Error::Crypto(String::from_str("UnknownCryptoError"))),
    }
}

fn modp_public(g: DhGroup, private: &[u8]) -> (r: Result<Vec<u8>, Error>)
    requires
        g != DhGroup::Curve25519,
    ensures
        public_of(g, private@, r),
{
    let mut two: Vec<u8> = Vec::new();
    two.push(2);
    assert(two@ =~= seq![2u8]);
    modp_pow(g, two.as_slice(), private)
}

impl Dh {
    /// Generate a fresh key pair for `group`: a random private value (32
    /// octets for Curve25519, the group's length for MODP) and its public
    /// value.
    pub fn generate(group: DhGroup) -> (r: Result<Dh, Error>)
        ensures
            match r {
                Ok(d) => d.group == group && (if group == DhGroup::Curve25519 {
                    d.private@.len() == 32 && d.public@ == x25519_base(d.private@)
                } else {
                    d.private@.len() == group.spec_key_len() && public_of(group, d.private@, Ok::<Vec<u8>, Error>(d.public))
                }),
                Err(e) => group != DhGroup::Curve25519 && exists|p: Seq<u8>| p.len() == group.spec_key_len() && public_of(group, p, Err::<Vec<u8>, Error>(e)),
            },
            r is Err <==> (group != DhGroup::Curve25519 && modp_prime_hex(group) is None),
            r matches Err(e) ==> e == Error::UnsupportedDhGroup(group.code()),
            r matches Ok(d) ==> d.public@.len() == group.spec_key_len(),
    {
        match group {
            DhGroup::Curve25519 => {
                let (private, public) = orion_x25519_generate();
                Ok(Dh { group, private, public })
            },
            _ => {
                let private = random_bytes(group.key_len());
                let public = modp_public(group, private.as_slice())?;
                Ok(Dh { group, private, public })
            },
        }
    }

    /// Build a key pair from an explicit private scalar (for deterministic tests).
    pub fn from_private(group: DhGroup, private: &[u8]) -> (r: Result<Dh, Error>)
        ensures
            match r {
                Ok(d) => d.group == group && d.private@ == private@ && public_of(group, private@, Ok::<Vec<u8>, Error>(d.public)),
                Err(e) => public_of(group, private@, Err::<Vec<u8>, Error>(e)),
            },
            group != DhGroup::Curve25519 ==> (r is Err <==> modp_prime_hex(group) is None),
            r matches Ok(d) ==> d.public@.len() == group.spec_key_len(),
    {
        let public = match group {
            DhGroup::Curve25519 => x25519_public(private)?,
            _ => modp_public(group, private)?,
        };
        Ok(Dh { group, private: vstd::slice::slice_to_vec(private), public })
    }

    /// Compute the shared secret with a peer's public value: the X25519 point
    /// (refused when either key is not 32 octets or the point is all
    /// zeros), or `peer^x mod p` for a MODP group (refused when all zeros).
    pub fn shared(&self, peer_public: &[u8]) -> (r: Result<Vec<u8>, Error>)
        ensures
            match self.group {
                DhGroup::Curve25519 => match r {
                    Ok(s) => s@ == x25519_point(self.private@, peer_public@),
                    Err(e) => e matches Error::Crypto(m) && m@ == "UnknownCryptoError"@,
                },
                _ => match r {
                    Ok(s) => !all_zero(s@) && modp_result(self.group, peer_public@, self.private@, Ok::<Vec<u8>, Error>(s)),
                    Err(e) => match modp_prime_hex(self.group) {
                        None => e == Error::UnsupportedDhGroup(self.group.code()),
                        Some(h) => e == Error::DhFailed && exists|v: Seq<u8>|
                            #[trigger] modp_value(self.group, peer_public@, self.private@, crate::text::utf8(h), v) && all_zero(v),
                    },
                },
            },
            (self.group == DhGroup::Curve25519 && r is Err) <==> (self.group == DhGroup::Curve25519 && !(self.private@.len() == 32 && peer_public@.len() == 32 && !all_zero(x25519_point(self.private@, peer_public@)))),
    {
        match self.group {
            DhGroup::Curve25519 => match orion_x25519_shared(self.private.as_slice(), peer_public) {
                Some(s) => Ok(s),
                None => Err(Error::Crypto(String::from_str("UnknownCryptoError"))),
            },
            _ => {
                let bytes = modp_pow(self.group, peer_public, self.private.as_slice())?;
                let mut i: usize = 0;
                while i < bytes.len()
                    invariant
                        i <= bytes@.len(),
                        forall|k: int| 0 <= k < i ==> bytes@[k] == 0,
                        self.group != DhGroup::Curve25519,
                        modp_result(self.group, peer_public@, self.private@, Ok::<Vec<u8>, Error>(bytes)),
                    decreases bytes.len() - i,
                {
                    if bytes[i] != 0 {
                        return Ok(bytes);
                    }
                    i = i + 1;
                }
                Err(Error::DhFailed)
            },
        }
    }
}

/// Generate `n` cryptographically random bytes.
pub fn random_bytes(n: usize) -> (r: Vec<u8>)
    ensures
        r@.len() == n,
{
    getrandom_bytes(n)
}

} // verus!
