//! Cryptographic primitives for Kerberos v5 (RFC 3962, RFC 8009, RFC 4120 §8).
//!
//! This module implements the AES-based encryption types:
//!
//! | etype | name                              | hash | key len |
//! |-------|-----------------------------------|------|---------|
//! | 17    | aes128-cts-hmac-sha1-96           | SHA1 | 16      |
//! | 18    | aes256-cts-hmac-sha1-96           | SHA1 | 32      |
//! | 19    | aes128-cts-hmac-sha256-128        | SHA256 | 16   |
//! | 20    | aes256-cts-hmac-sha384-192        | SHA384 | 32    |
//!
//! AES, HMAC and SHA come from the RustCrypto crates; the Kerberos-specific
//! glue (string2key, key derivation, AES-CTS, checksum) is built here from the
//! RFC text.

use vstd::prelude::*;
use crate::digits::be_digits;
use crate::ipsec::crypto::{blocks_for, cbc_dec, cbc_enc, cbc_invertible_on, lemma_blocks_for, lemma_cbc_dec_enc};
use crate::kerberos::error::Error;
use crate::primitives::{
    random_octets, aes_decrypt, aes_decrypt_block, aes_encrypt, aes_encrypt_block, ct_eq_bytes, hmac_sha1, hmac_sha1_tag,
    hmac_sha256, hmac_sha256_tag, hmac_sha384, hmac_sha384_tag, xor_block, xor_seq,
};
use crate::text::utf8;

verus! {

/// AES block size in bytes.
const BLOCK: usize = 16;

/// A supported Kerberos encryption type descriptor.
#[derive(Debug, Clone, Copy, PartialEq, Eq, Structural)]
pub struct Enctype {
    /// The etype number.
    pub etype: u32,
    /// `keylength` — base key / derived key length in bytes.
    pub keylen: usize,
    /// `hashlen` — the hash output length (n) in bytes.
    pub hashlen: usize,
    /// `cksumlen` — the stored checksum length in bytes.
    pub cksumlen: usize,
}

/// aes128-cts-hmac-sha1-96.
pub const ENCTYPE_AES128_CTS_HMAC_SHA1_96: u32 = 17;

/// aes256-cts-hmac-sha1-96.
pub const ENCTYPE_AES256_CTS_HMAC_SHA1_96: u32 = 18;

/// aes128-cts-hmac-sha256-128.
pub const ENCTYPE_AES128_CTS_HMAC_SHA256_128: u32 = 19;

/// aes256-cts-hmac-sha384-192.
pub const ENCTYPE_AES256_CTS_HMAC_SHA384_192: u32 = 20;

/// Default iteration count for AES string2key (RFC 3962 §4 recommends 4096).
pub const DEFAULT_STRING2KEY_ITER: u32 = 4096;

/// The descriptor of a supported etype.
pub open spec fn enctype_of(etype: u32) -> Option<Enctype> {
    if etype == 17 {
        Some(Enctype { etype, keylen: 16, hashlen: 20, cksumlen: 12 })
    } else if etype == 18 {
        Some(Enctype { etype, keylen: 32, hashlen: 20, cksumlen: 12 })
    } else if etype == 19 {
        Some(Enctype { etype, keylen: 16, hashlen: 32, cksumlen: 16 })
    } else if etype == 20 {
        Some(Enctype { etype, keylen: 32, hashlen: 48, cksumlen: 24 })
    } else {
        None
    }
}

/// `e` is the descriptor of a supported etype.
pub open spec fn valid_enctype(e: Enctype) -> bool {
    enctype_of(e.etype) == Some(e)
}

/// The etype uses the RFC 8009 (SHA-2) key derivation.
pub open spec fn is_rfc8009(e: Enctype) -> bool {
    e.etype == 19 || e.etype == 20
}

impl Enctype {
    /// The descriptor of an etype; an error for an unsupported one.
    pub fn from_etype(etype: u32) -> (r: Result<Enctype, Error>)
        ensures
            match enctype_of(etype) {
                Some(e) => r == Ok::<Enctype, Error>(e),
                None => r == Err::<Enctype, Error>(Error::UnsupportedEnctype(etype)),
            },
    {
        if etype == ENCTYPE_AES128_CTS_HMAC_SHA1_96 {
            Ok(Enctype { etype, keylen: 16, hashlen: 20, cksumlen: 12 })
        } else if etype == ENCTYPE_AES256_CTS_HMAC_SHA1_96 {
            Ok(Enctype { etype, keylen: 32, hashlen: 20, cksumlen: 12 })
        } else if etype == ENCTYPE_AES128_CTS_HMAC_SHA256_128 {
            Ok(Enctype { etype, keylen: 16, hashlen: 32, cksumlen: 16 })
        } else if etype == ENCTYPE_AES256_CTS_HMAC_SHA384_192 {
            Ok(Enctype { etype, keylen: 32, hashlen: 48, cksumlen: 24 })
        } else {
            Err(Error::UnsupportedEnctype(etype))
        }
    }

    fn is_rfc8009(&self) -> (b: bool)
        ensures
            b == is_rfc8009(*self),
    {
        self.etype == ENCTYPE_AES128_CTS_HMAC_SHA256_128 || self.etype == ENCTYPE_AES256_CTS_HMAC_SHA384_192
    }
}

// ---------------------------------------------------------------------------
// HMAC with the enctype's hash
// ---------------------------------------------------------------------------

/// HMAC under the enctype's hash (SHA-1, SHA-256 or SHA-384).
pub open spec fn hash_mac(e: Enctype, key: Seq<u8>, data: Seq<u8>) -> Seq<u8> {
    if e.etype == 17 || e.etype == 18 {
        hmac_sha1(key, data)
    } else if e.etype == 19 {
        hmac_sha256(key, data)
    } else {
        hmac_sha384(key, data)
    }
}

/// The HMAC truncated to the enctype's checksum length.
pub open spec fn truncated_mac(e: Enctype, key: Seq<u8>, data: Seq<u8>) -> Seq<u8> {
    hash_mac(e, key, data).subrange(0, e.cksumlen as int)
}

fn hmac_full(enct: &Enctype, key: &[u8], data: &[u8]) -> (r: Vec<u8>)
    requires
        valid_enctype(*enct),
    ensures
        r@ == hash_mac(*enct, key@, data@),
        r@.len() == enct.hashlen,
{
    if enct.etype == ENCTYPE_AES128_CTS_HMAC_SHA1_96 || enct.etype == ENCTYPE_AES256_CTS_HMAC_SHA1_96 {
        hmac_sha1_tag(key, data)
    } else if enct.etype == ENCTYPE_AES128_CTS_HMAC_SHA256_128 {
        hmac_sha256_tag(key, data)
    } else {
        hmac_sha384_tag(key, data)
    }
}

/// Compute the HMAC for the enctype over `data` and return `cksumlen` bytes.
fn hmac_for(enct: &Enctype, key: &[u8], data: &[u8]) -> (r: Vec<u8>)
    requires
        valid_enctype(*enct),
    ensures
        r@ == truncated_mac(*enct, key@, data@),
        r@.len() == enct.cksumlen,
        hash_mac(*enct, key@, data@).len() == enct.hashlen,
{
    let full = hmac_full(enct, key, data);
    vstd::slice::slice_to_vec(&full.as_slice()[0..enct.cksumlen])
}

// ---------------------------------------------------------------------------
// string2key (RFC 3962 §4, PBKDF2 with the enctype hash as PRF)
// ---------------------------------------------------------------------------

/// `U_j` of PBKDF2 block `i`: `U_1 = PRF(P, S | INT(i))`, `U_j = PRF(P, U_{j-1})`.
pub open spec fn pbkdf2_u(e: Enctype, pw: Seq<u8>, salt: Seq<u8>, i: nat, j: nat) -> Seq<u8>
    decreases j,
{
    if j <= 1 {
        hash_mac(e, pw, salt + be_digits(i, 4))
    } else {
        hash_mac(e, pw, pbkdf2_u(e, pw, salt, i, (j - 1) as nat))
    }
}

/// Block `i` of PBKDF2 with `c` iterations: `U_1 ^ ... ^ U_c` (one term when
/// `c` is 0 or 1).
pub open spec fn pbkdf2_t(e: Enctype, pw: Seq<u8>, salt: Seq<u8>, i: nat, c: nat) -> Seq<u8>
    decreases c,
{
    if c <= 1 {
        pbkdf2_u(e, pw, salt, i, 1)
    } else {
        xor_seq(pbkdf2_t(e, pw, salt, i, (c - 1) as nat), pbkdf2_u(e, pw, salt, i, c))
    }
}

/// The first `k` PBKDF2 blocks.
pub open spec fn pbkdf2_blocks(e: Enctype, pw: Seq<u8>, salt: Seq<u8>, c: nat, k: nat) -> Seq<u8>
    decreases k,
{
    if k == 0 {
        Seq::empty()
    } else {
        pbkdf2_blocks(e, pw, salt, c, (k - 1) as nat) + pbkdf2_t(e, pw, salt, k, c)
    }
}

/// PBKDF2 (RFC 8018) with HMAC under the enctype's hash, `dklen` octets.
pub open spec fn pbkdf2_spec(e: Enctype, pw: Seq<u8>, salt: Seq<u8>, c: nat, dklen: nat) -> Seq<u8> {
    pbkdf2_blocks(e, pw, salt, c, blocks_for(dklen, e.hashlen as nat)).subrange(0, dklen as int)
}

fn pbkdf2_block(enct: &Enctype, password: &[u8], salt: &[u8], iterations: u32, i: u32) -> (t: Vec<u8>)
    requires
        valid_enctype(*enct),
    ensures
        t@ == pbkdf2_t(*enct, password@, salt@, i as nat, iterations as nat),
        t@.len() == enct.hashlen,
{
    let mut msg = vstd::slice::slice_to_vec(salt);
    let mut ib: Vec<u8> = Vec::new();
    crate::ipsec::message::put_u32(&mut ib, i);
    msg.extend_from_slice(ib.as_slice());
    assert(msg@ =~= salt@ + be_digits(i as nat, 4));
    let mut u = hmac_full(enct, password, msg.as_slice());
    let mut t = vstd::slice::slice_to_vec(u.as_slice());
    let mut j: u32 = 1;
    while j < iterations
        invariant
            valid_enctype(*enct),
            1 <= j,
            j <= iterations || j == 1,
            u@ == pbkdf2_u(*enct, password@, salt@, i as nat, j as nat),
            t@ == pbkdf2_t(*enct, password@, salt@, i as nat, j as nat),
            u@.len() == enct.hashlen,
            t@.len() == enct.hashlen,
        decreases iterations - j,
    {
        u = hmac_full(enct, password, u.as_slice());
        t = xor_block(t.as_slice(), u.as_slice());
        j = j + 1;
    }
    proof {
        if iterations <= 1 {
            assert(pbkdf2_t(*enct, password@, salt@, i as nat, iterations as nat) == pbkdf2_t(
                *enct,
                password@,
                salt@,
                i as nat,
                1,
            ));
        }
    }
    t
}

/// PBKDF2 (RFC 8018) with HMAC-<H> as the PRF, producing `dklen` bytes.
fn pbkdf2(enct: &Enctype, password: &[u8], salt: &[u8], iterations: u32, dklen: usize) -> (r: Vec<u8>)
    requires
        valid_enctype(*enct),
        dklen <= 64,
    ensures
        r@ == pbkdf2_spec(*enct, password@, salt@, iterations as nat, dklen as nat),
        r@.len() == dklen,
{
    let hlen = enct.hashlen;
    let blocks = (dklen + hlen - 1) / hlen;
    assert(blocks <= 64) by (nonlinear_arith)
        requires
            blocks == (dklen + hlen - 1) / (hlen as int),
            hlen >= 20,
            dklen <= 64,
    ;
    let mut all: Vec<u8> = Vec::new();
    let mut i: u32 = 1;
    while (i as usize) <= blocks
        invariant
            valid_enctype(*enct),
            hlen == enct.hashlen,
            blocks <= 64,
            1 <= i <= blocks + 1,
            all@ == pbkdf2_blocks(*enct, password@, salt@, iterations as nat, (i - 1) as nat),
            all@.len() == (i - 1) * hlen,
        decreases blocks + 1 - i,
    {
        let t = pbkdf2_block(enct, password, salt, iterations, i);
        all.extend_from_slice(t.as_slice());
        proof {
            assert((i - 1) * hlen + hlen == i * hlen) by (nonlinear_arith);
        }
        i = i + 1;
    }
    proof {
        assert(blocks == blocks_for(dklen as nat, hlen as nat));
        assert(blocks * hlen >= dklen) by (nonlinear_arith)
            requires
                blocks == (dklen + hlen - 1) / (hlen as int),
                hlen > 0,
        {
            vstd::arithmetic::div_mod::lemma_fundamental_div_mod((dklen + hlen - 1) as int, hlen as int);
        }
    }
    vstd::slice::slice_to_vec(&all.as_slice()[0..dklen])
}

/// Derive a raw protocol key from a password, salt, and iteration count.
///
/// Mirrors RFC 3962 §4: `tkey = PBKDF2-HMAC(password, salt, iterations, keylen)`,
/// then `random-to-key` (identity for AES).
pub fn string2key(etype: u32, password: &[u8], salt: &[u8], iterations: u32) -> (r: Result<Vec<u8>, Error>)
    ensures
        match enctype_of(etype) {
            Some(e) => r matches Ok(k) && k@ == pbkdf2_spec(e, password@, salt@, iterations as nat, e.keylen as nat)
                && k@.len() == e.keylen,
            None => r == Err::<Vec<u8>, Error>(Error::UnsupportedEnctype(etype)),
        },
{
    let enct = match Enctype::from_etype(etype) {
        Ok(e) => e,
        Err(e) => return Err(e),
    };
    Ok(pbkdf2(&enct, password, salt, iterations, enct.keylen))
}

// ---------------------------------------------------------------------------
// Key derivation: DK / DR (RFC 3962 §6) and RFC 8009 KDF
// ---------------------------------------------------------------------------

/// Block `j` of `DR(key, constant)`: `K_1 = HMAC(key, constant)`,
/// `K_j = HMAC(key, K_{j-1})`.
pub open spec fn dr_block(e: Enctype, key: Seq<u8>, c: Seq<u8>, j: nat) -> Seq<u8>
    decreases j,
{
    if j <= 1 {
        hash_mac(e, key, c)
    } else {
        hash_mac(e, key, dr_block(e, key, c, (j - 1) as nat))
    }
}

/// `K_1 | ... | K_m`.
pub open spec fn dr_stream(e: Enctype, key: Seq<u8>, c: Seq<u8>, m: nat) -> Seq<u8>
    decreases m,
{
    if m == 0 {
        Seq::empty()
    } else {
        dr_stream(e, key, c, (m - 1) as nat) + dr_block(e, key, c, m)
    }
}

/// `DR(key, constant, k)`: the first `k` octets of `K_1 | K_2 | ...`.
pub open spec fn dr_spec(e: Enctype, key: Seq<u8>, c: Seq<u8>, k: nat) -> Seq<u8> {
    dr_stream(e, key, c, blocks_for(k, e.hashlen as nat)).subrange(0, k as int)
}

/// `DR(key, constant, k)` — the "dense" random-to-key key-derivation step.
fn dr(enct: &Enctype, key: &[u8], constant: &[u8], k: usize) -> (r: Vec<u8>)
    requires
        valid_enctype(*enct),
        k <= 64,
    ensures
        r@ == dr_spec(*enct, key@, constant@, k as nat),
        r@.len() == k,
{
    let h = enct.hashlen;
    let mut prev = hmac_full(enct, key, constant);
    let mut blocks = vstd::slice::slice_to_vec(prev.as_slice());
    let ghost mut m: nat = 1;
    assert(dr_stream(*enct, key@, constant@, 0) =~= Seq::<u8>::empty());
    assert(dr_stream(*enct, key@, constant@, 1) =~= dr_block(*enct, key@, constant@, 1));
    while blocks.len() < k
        invariant
            valid_enctype(*enct),
            h == enct.hashlen,
            k <= 64,
            m >= 1,
            blocks@ == dr_stream(*enct, key@, constant@, m),
            prev@ == dr_block(*enct, key@, constant@, m),
            blocks@.len() == m * h,
            m == 1 || (m - 1) * h < k,
            blocks@.len() < k + 64,
        decreases k + 64 - blocks@.len(),
    {
        prev = hmac_full(enct, key, prev.as_slice());
        blocks.extend_from_slice(prev.as_slice());
        proof {
            assert(m * h + h == (m + 1) * h) by (nonlinear_arith);
            m = m + 1;
        }
    }
    proof {
        if k == 0 {
            assert(blocks_for(0, h as nat) == 0);
        } else if m == 1 {
            lemma_blocks_for(k as nat, h as nat, 1);
        } else {
            lemma_blocks_for(k as nat, h as nat, m);
        }
    }
    let r = vstd::slice::slice_to_vec(&blocks.as_slice()[0..k]);
    proof {
        if k == 0 {
            assert(r@ =~= dr_spec(*enct, key@, constant@, 0));
        }
    }
    r
}

/// The constant of the RFC 8009 KDF for `label`: `label | 00000001 | 00`.
pub open spec fn kdf_constant(label: Seq<u8>) -> Seq<u8> {
    label + be_digits(1, 4) + seq![0u8]
}

/// RFC 8009 KDF: `KDF-HMAC-SHA2(K, label, k)`.
///
/// `label` is the ASCII well-known constant; the PRF input is
/// `label || 0x00000001 || 0x00` (the 4-byte counter `1` then a 1-byte length-0
/// context), per RFC 8009 §3.
fn kdf_8009(enct: &Enctype, key: &[u8], label: &[u8], k: usize) -> (r: Vec<u8>)
    requires
        valid_enctype(*enct),
        k <= 64,
    ensures
        r@ == dr_spec(*enct, key@, kdf_constant(label@), k as nat),
        r@.len() == k,
{
    let mut constant = vstd::slice::slice_to_vec(label);
    crate::ipsec::message::put_u32(&mut constant, 1);
    constant.push(0);
    assert(constant@ =~= kdf_constant(label@));
    dr(enct, key, constant.as_slice(), k)
}

/// The RFC 8009 label of the encryption key.
pub open spec fn label_encrypt() -> Seq<u8> {
    utf8("kerberos-8009-KEY-ENCRYPT"@)
}

/// The RFC 8009 label of the integrity / checksum key.
pub open spec fn label_cksum() -> Seq<u8> {
    utf8("kerberos-8009-KEY-CKSUM"@)
}

/// The derivation constant of an RFC 3962 usage key: the usage and one
/// octet (0xAA for encryption, 0x55 for integrity).
pub open spec fn usage_constant(usage: u32, kind: u8) -> Seq<u8> {
    be_digits(usage as nat, 4) + seq![kind]
}

/// The per-usage encryption key: for RFC 8009 the fixed KDF key, else
/// `DK(K, usage | 0xAA)`.
pub open spec fn enc_key(e: Enctype, base: Seq<u8>, usage: u32) -> Seq<u8> {
    if is_rfc8009(e) {
        dr_spec(e, base, kdf_constant(label_encrypt()), e.keylen as nat)
    } else {
        dr_spec(e, base, usage_constant(usage, 0xAA), e.keylen as nat)
    }
}

/// The per-usage integrity key: for RFC 8009 the fixed KDF key, else
/// `DK(K, usage | 0x55)`.
pub open spec fn integ_key(e: Enctype, base: Seq<u8>, usage: u32) -> Seq<u8> {
    if is_rfc8009(e) {
        dr_spec(e, base, kdf_constant(label_cksum()), e.keylen as nat)
    } else {
        dr_spec(e, base, usage_constant(usage, 0x55), e.keylen as nat)
    }
}

/// The per-usage encryption and integrity keys for an enctype.
struct DerivedKeys {
    enc: Vec<u8>,
    integ: Vec<u8>,
    /// Whether the key usage must be included in the HMAC input (RFC 8009).
    usage_in_hmac: bool,
}

fn usage_constant_bytes(usage: u32, kind: u8) -> (r: Vec<u8>)
    ensures
        r@ == usage_constant(usage, kind),
{
    let mut c: Vec<u8> = Vec::new();
    crate::ipsec::message::put_u32(&mut c, usage);
    c.push(kind);
    assert(c@ =~= usage_constant(usage, kind));
    c
}

/// Derive the per-usage encryption and integrity keys for an enctype.
///
/// For RFC 3962 enctypes, `Ke = DK(K, usage||0xAA)`, `Ki = DK(K, usage||0x55)`.
/// For RFC 8009 enctypes, the keys are fixed per (K, enctype) and derived from
/// the well-known labels; the *usage* is instead folded into the HMAC input.
fn derive_keys(enct: &Enctype, base_key: &[u8], usage: u32) -> (d: DerivedKeys)
    requires
        valid_enctype(*enct),
    ensures
        d.enc@ == enc_key(*enct, base_key@, usage),
        d.integ@ == integ_key(*enct, base_key@, usage),
        d.enc@.len() == enct.keylen,
        d.integ@.len() == enct.keylen,
        d.usage_in_hmac == is_rfc8009(*enct),
{
    if enct.is_rfc8009() {
        let enc = kdf_8009(enct, base_key, "kerberos-8009-KEY-ENCRYPT".as_bytes(), enct.keylen);
        let integ = kdf_8009(enct, base_key, "kerberos-8009-KEY-CKSUM".as_bytes(), enct.keylen);
        DerivedKeys { enc, integ, usage_in_hmac: true }
    } else {
        let c_enc = usage_constant_bytes(usage, 0xAA);
        let c_int = usage_constant_bytes(usage, 0x55);
        let enc = dr(enct, base_key, c_enc.as_slice(), enct.keylen);
        let integ = dr(enct, base_key, c_int.as_slice(), enct.keylen);
        DerivedKeys { enc, integ, usage_in_hmac: false }
    }
}

// ---------------------------------------------------------------------------
// AES-CTS (CBC ciphertext stealing) — RFC 3962 §5.3
// ---------------------------------------------------------------------------

/// `n` zero octets.
pub open spec fn zeros(n: nat) -> Seq<u8> {
    Seq::new(n, |i: int| 0u8)
}

/// AES-CTS encryption with a zero IV (RFC 3962 §5.3): a single block (or
/// less, zero-filled) is encrypted on its own; longer input is CBC-encrypted
/// with the last block zero-filled, and the last two ciphertext blocks are
/// swapped, the final one cut to the length of the last plaintext block.
pub open spec fn cts_enc(key: Seq<u8>, pt: Seq<u8>) -> Seq<u8> {
    let l = pt.len() as int;
    if l == 0 {
        Seq::empty()
    } else if l <= 16 {
        aes_encrypt_block(key, pt + zeros((16 - l) as nat))
    } else {
        let n = (l - 1) / 16 + 1;
        let lastlen = l - (n - 1) * 16;
        let cbc = cbc_enc(key, zeros(16), pt.subrange(0, (n - 1) * 16));
        let x = cbc.subrange((n - 2) * 16, (n - 1) * 16);
        let cn = aes_encrypt_block(key, xor_seq(pt.subrange((n - 1) * 16, l) + zeros((16 - lastlen) as nat), x));
        cbc.subrange(0, (n - 2) * 16) + cn + x.subrange(0, lastlen)
    }
}

/// AES-CTS decryption with a zero IV: the inverse of [`cts_enc`] for inputs
/// of at least one block; nothing for a non-empty input shorter than a block.
pub open spec fn cts_dec(key: Seq<u8>, ct: Seq<u8>) -> Option<Seq<u8>> {
    let l = ct.len() as int;
    if l == 0 {
        Some(Seq::empty())
    } else if l < 16 {
        None
    } else if l == 16 {
        Some(aes_decrypt_block(key, ct))
    } else {
        let n = (l - 1) / 16 + 1;
        let lastlen = l - (n - 1) * 16;
        let cn = ct.subrange((n - 2) * 16, (n - 1) * 16);
        let tail = ct.subrange((n - 1) * 16, l);
        let dn = aes_decrypt_block(key, cn);
        let x = tail + dn.subrange(lastlen, 16);
        let front = ct.subrange(0, (n - 2) * 16);
        let prev = if n == 2 {
            zeros(16)
        } else {
            front.subrange((n - 3) * 16, (n - 2) * 16)
        };
        Some(cbc_dec(key, zeros(16), front) + xor_seq(aes_decrypt_block(key, x), prev) + xor_seq(
            dn.subrange(0, lastlen),
            tail,
        ))
    }
}

fn zero_vec(n: usize) -> (r: Vec<u8>)
    ensures
        r@ == zeros(n as nat),
{
    let mut v: Vec<u8> = Vec::new();
    let mut i: usize = 0;
    while i < n
        invariant
            i <= n,
            v@ == zeros(i as nat),
        decreases n - i,
    {
        v.push(0);
        i = i + 1;
        assert(v@ =~= zeros(i as nat));
    }
    v
}

/// CBC encryption of whole blocks with a zero IV; also the last ciphertext
/// block (the IV when there is none).
fn cbc_zero_iv(key: &[u8], pt: &[u8]) -> (r: (Vec<u8>, Vec<u8>))
    requires
        key@.len() == 16 || key@.len() == 32,
        pt@.len() % 16 == 0,
    ensures
        r.0@ == cbc_enc(key@, zeros(16), pt@),
        r.0@.len() == pt@.len(),
        r.1@.len() == 16,
        pt@.len() >= 16 ==> r.1@ == r.0@.subrange(pt@.len() - 16, pt@.len() as int),
        cbc_invertible_on(key@, zeros(16), pt@),
{
    let mut out: Vec<u8> = Vec::new();
    let mut prev = zero_vec(16);
    let mut pos: usize = 0;
    assert(pt@.subrange(0, pt@.len() as int) =~= pt@);
    assert(out@ + cbc_enc(key@, zeros(16), pt@) =~= cbc_enc(key@, zeros(16), pt@));
    while pos < pt.len()
        invariant
            key@.len() == 16 || key@.len() == 32,
            pos <= pt@.len(),
            pos % 16 == 0,
            pt@.len() % 16 == 0,
            out@.len() == pos,
            prev@.len() == 16,
            pos >= 16 ==> prev@ == out@.subrange(pos - 16, pos as int),
            cbc_enc(key@, zeros(16), pt@) == out@ + cbc_enc(key@, prev@, pt@.subrange(pos as int, pt@.len() as int)),
            cbc_invertible_on(key@, prev@, pt@.subrange(pos as int, pt@.len() as int)) ==> cbc_invertible_on(
                key@,
                zeros(16),
                pt@,
            ),
        decreases pt.len() - pos,
    {
        let block = xor_block(&pt[pos..pos + 16], prev.as_slice());
        let c = aes_encrypt(key, block.as_slice());
        proof {
            let rest = pt@.subrange(pos as int, pt@.len() as int);
            assert(rest.subrange(0, 16) =~= pt@.subrange(pos as int, pos + 16));
            assert(rest.subrange(16, rest.len() as int) =~= pt@.subrange(pos + 16, pt@.len() as int));
            assert(out@ + c@ + cbc_enc(key@, c@, pt@.subrange(pos + 16, pt@.len() as int)) =~= out@ + (c@ + cbc_enc(
                key@,
                c@,
                pt@.subrange(pos + 16, pt@.len() as int),
            )));
            assert(block@ == xor_seq(rest.subrange(0, 16), prev@));
        }
        out.extend_from_slice(c.as_slice());
        prev = c;
        pos = pos + 16;
        assert(prev@ =~= out@.subrange(pos - 16, pos as int));
    }
    proof {
        assert(pt@.subrange(pos as int, pt@.len() as int).len() == 0);
        assert(out@ + Seq::<u8>::empty() =~= out@);
    }
    (out, prev)
}

/// CBC decryption of whole blocks with a zero IV.
fn cbc_dec_zero_iv(key: &[u8], ct: &[u8]) -> (r: Vec<u8>)
    requires
        key@.len() == 16 || key@.len() == 32,
        ct@.len() % 16 == 0,
    ensures
        r@ == cbc_dec(key@, zeros(16), ct@),
{
    let mut out: Vec<u8> = Vec::new();
    let mut prev = zero_vec(16);
    let mut pos: usize = 0;
    assert(ct@.subrange(0, ct@.len() as int) =~= ct@);
    assert(out@ + cbc_dec(key@, zeros(16), ct@) =~= cbc_dec(key@, zeros(16), ct@));
    while pos < ct.len()
        invariant
            key@.len() == 16 || key@.len() == 32,
            pos <= ct@.len(),
            pos % 16 == 0,
            ct@.len() % 16 == 0,
            cbc_dec(key@, zeros(16), ct@) == out@ + cbc_dec(key@, prev@, ct@.subrange(pos as int, ct@.len() as int)),
        decreases ct.len() - pos,
    {
        let chunk = &ct[pos..pos + 16];
        let d = aes_decrypt(key, chunk);
        let p = xor_block(d.as_slice(), prev.as_slice());
        proof {
            let rest = ct@.subrange(pos as int, ct@.len() as int);
            assert(rest.subrange(0, 16) =~= chunk@);
            assert(rest.subrange(16, rest.len() as int) =~= ct@.subrange(pos + 16, ct@.len() as int));
            assert(out@ + p@ + cbc_dec(key@, chunk@, ct@.subrange(pos + 16, ct@.len() as int)) =~= out@ + (p@
                + cbc_dec(key@, chunk@, ct@.subrange(pos + 16, ct@.len() as int))));
        }
        out.extend_from_slice(p.as_slice());
        prev = vstd::slice::slice_to_vec(chunk);
        pos = pos + 16;
    }
    proof {
        assert(ct@.subrange(pos as int, ct@.len() as int).len() == 0);
        assert(out@ + Seq::<u8>::empty() =~= out@);
    }
    out
}

/// Encrypt `pt` with AES-CTS (zero IV); input of at least one block gives
/// ciphertext of equal length.
fn aes_cts_encrypt(key: &[u8], pt: &[u8]) -> (r: Vec<u8>)
    requires
        key@.len() == 16 || key@.len() == 32,
    ensures
        r@ == cts_enc(key@, pt@),
        cts_invertible_on(key@, pt@),
{
    let l = pt.len();
    if l == 0 {
        return Vec::new();
    }
    if l <= BLOCK {
        let mut block = vstd::slice::slice_to_vec(pt);
        let z = zero_vec(BLOCK - l);
        block.extend_from_slice(z.as_slice());
        assert(block@ =~= pt@ + zeros((16 - l) as nat));
        return aes_encrypt(key, block.as_slice());
    }
    let n = (l - 1) / BLOCK + 1;
    let lastlen = l - (n - 1) * BLOCK;
    let (cbc, x) = cbc_zero_iv(key, &pt[0..(n - 1) * BLOCK]);
    let mut last = vstd::slice::slice_to_vec(&pt[(n - 1) * BLOCK..l]);
    let z = zero_vec(BLOCK - lastlen);
    last.extend_from_slice(z.as_slice());
    assert(last@ =~= pt@.subrange((n - 1) * 16, l as int) + zeros((16 - lastlen) as nat));
    let xb = xor_block(last.as_slice(), x.as_slice());
    let cn = aes_encrypt(key, xb.as_slice());
    let mut out = vstd::slice::slice_to_vec(&cbc.as_slice()[0..(n - 2) * BLOCK]);
    out.extend_from_slice(cn.as_slice());
    out.extend_from_slice(&x.as_slice()[0..lastlen]);
    proof {
        let ghost c = cbc_enc(key@, zeros(16), pt@.subrange(0, (n - 1) * 16));
        assert(x@ =~= c.subrange((n - 2) * 16, (n - 1) * 16));
        assert(out@ =~= cts_enc(key@, pt@));
    }
    out
}

/// Decrypt AES-CTS ciphertext `ct` (length == plaintext length), zero IV; a
/// non-empty ciphertext shorter than a block does not decrypt.
fn aes_cts_decrypt(key: &[u8], ct: &[u8]) -> (r: Result<Vec<u8>, Error>)
    requires
        key@.len() == 16 || key@.len() == 32,
    ensures
        match cts_dec(key@, ct@) {
            Some(p) => r matches Ok(v) && v@ == p,
            None => r matches Err(Error::DecryptFailed),
        },
{
    let l = ct.len();
    if l == 0 {
        return Ok(Vec::new());
    }
    if l < BLOCK {
        return Err(Error::DecryptFailed);
    }
    if l == BLOCK {
        return Ok(aes_decrypt(key, ct));
    }
    let n = (l - 1) / BLOCK + 1;
    let lastlen = l - (n - 1) * BLOCK;
    let cn = &ct[(n - 2) * BLOCK..(n - 1) * BLOCK];
    let tail = &ct[(n - 1) * BLOCK..l];
    let dn = aes_decrypt(key, cn);
    let mut x = vstd::slice::slice_to_vec(tail);
    x.extend_from_slice(&dn.as_slice()[lastlen..BLOCK]);
    let front = &ct[0..(n - 2) * BLOCK];
    let prev = if n == 2 {
        zero_vec(BLOCK)
    } else {
        vstd::slice::slice_to_vec(&front[(n - 3) * BLOCK..(n - 2) * BLOCK])
    };
    let dx = aes_decrypt(key, x.as_slice());
    let p_nm1 = xor_block(dx.as_slice(), prev.as_slice());
    let p_n = xor_block(&dn.as_slice()[0..lastlen], tail);
    let mut pt = cbc_dec_zero_iv(key, front);
    pt.extend_from_slice(p_nm1.as_slice());
    pt.extend_from_slice(p_n.as_slice());
    proof {
        assert(x@ =~= tail@ + dn@.subrange(lastlen as int, 16));
        assert(front@.subrange((n - 3) * 16, (n - 2) * 16) =~= ct@.subrange(0, (n - 2) * 16).subrange((n - 3) * 16, (n - 2) * 16));
        assert(pt@ =~= cts_dec(key@, ct@)->Some_0);
    }
    Ok(pt)
}

// ---------------------------------------------------------------------------
// High-level encrypt / decrypt / checksum (RFC 3962 §7, RFC 8009 §6)
// ---------------------------------------------------------------------------

/// `s` zero-filled to a whole number of blocks.
pub open spec fn pad16(s: Seq<u8>) -> Seq<u8> {
    s + zeros(((16 - s.len() % 16) % 16) as nat)
}

/// The HMAC input of an `EncryptedData`: two zero octets (the unused kvno),
/// the key usage for RFC 8009 etypes, then the ciphertext.
pub open spec fn mac_input(e: Enctype, usage: u32, c: Seq<u8>) -> Seq<u8> {
    seq![0u8, 0u8] + (if is_rfc8009(e) {
        be_digits(usage as nat, 4)
    } else {
        Seq::empty()
    }) + c
}

/// The `cipher` field [`encrypt`] produces with the confounder `conf`: the
/// AES-CTS encryption of `conf | plaintext` zero-filled to whole blocks, then
/// its truncated HMAC.
pub open spec fn sealed(e: Enctype, key: Seq<u8>, usage: u32, conf: Seq<u8>, pt: Seq<u8>) -> Seq<u8> {
    let c = cts_enc(enc_key(e, key, usage), pad16(conf + pt));
    c + truncated_mac(e, integ_key(e, key, usage), mac_input(e, usage, c))
}

/// `d` without its trailing zero octets.
pub open spec fn strip_zeros(d: Seq<u8>) -> Seq<u8>
    decreases d.len(),
{
    if d.len() == 0 || d.last() != 0 {
        d
    } else {
        strip_zeros(d.drop_last())
    }
}

/// What [`decrypt`] gives for `cipher`: an error when it is shorter than a
/// checksum and one octet, when the checksum does not match, or when the
/// ciphertext or its plaintext is too short; else the plaintext after the
/// confounder, without trailing zero octets.
pub open spec fn opened(e: Enctype, key: Seq<u8>, usage: u32, cipher: Seq<u8>) -> Result<Seq<u8>, Error> {
    if cipher.len() < e.cksumlen + 1 {
        Err(Error::DecryptFailed)
    } else {
        let split = cipher.len() - e.cksumlen;
        let c = cipher.subrange(0, split);
        let expected = cipher.subrange(split, cipher.len() as int);
        if truncated_mac(e, integ_key(e, key, usage), mac_input(e, usage, c)) != expected {
            Err(Error::ChecksumMismatch)
        } else {
            match cts_dec(enc_key(e, key, usage), c) {
                None => Err(Error::DecryptFailed),
                Some(pt) => if pt.len() < 16 {
                    Err(Error::DecryptFailed)
                } else {
                    Ok(strip_zeros(pt.subrange(16, pt.len() as int)))
                },
            }
        }
    }
}

fn mac_input_bytes(enct: &Enctype, usage: u32, c: &[u8]) -> (r: Vec<u8>)
    ensures
        r@ == mac_input(*enct, usage, c@),
{
    let mut v: Vec<u8> = Vec::new();
    v.push(0);
    v.push(0);
    if enct.is_rfc8009() {
        crate::ipsec::message::put_u32(&mut v, usage);
    }
    v.extend_from_slice(c);
    assert(v@ =~= mac_input(*enct, usage, c@));
    v
}

/// Encrypt `plaintext` with a base key and key-usage, appending the checksum.
///
/// Returns the `cipher` field of an `EncryptedData` (confounder || data), with
/// the MAC appended; the confounder is one block of random octets.
pub fn encrypt(enct: &Enctype, base_key: &[u8], usage: u32, plaintext: &[u8]) -> (r: Result<Vec<u8>, Error>)
    requires
        valid_enctype(*enct),
    ensures
        match r {
            Ok(c) => exists|conf: Seq<u8>|
                conf.len() == 16 && c@ == #[trigger] sealed(*enct, base_key@, usage, conf, plaintext@),
            Err(e) => e is Constraint,
        },
        r matches Ok(c) ==> opened(*enct, base_key@, usage, c@) == Ok::<Seq<u8>, Error>(strip_zeros(plaintext@)),
        r matches Ok(c) ==> c@.len() == 16 + pad16(plaintext@).len() + enct.cksumlen,
{
    let dk = derive_keys(enct, base_key, usage);
    let conf = match random_octets(BLOCK) {
        Ok(v) => v,
        Err(m) => return Err(Error::Constraint(m)),
    };
    let mut buf = vstd::slice::slice_to_vec(conf.as_slice());
    buf.extend_from_slice(plaintext);
    let pad = (BLOCK - buf.len() % BLOCK) % BLOCK;
    let z = zero_vec(pad);
    let ghost base = buf@;
    buf.extend_from_slice(z.as_slice());
    assert(buf@ =~= pad16(conf@ + plaintext@));
    let c = aes_cts_encrypt(dk.enc.as_slice(), buf.as_slice());
    let hmac_input = mac_input_bytes(enct, usage, c.as_slice());
    let h = hmac_for(enct, dk.integ.as_slice(), hmac_input.as_slice());
    proof {
        assert(buf@.len() % 16 == 0 && buf@.len() >= 16) by {
            let l = (conf@ + plaintext@).len() as int;
            vstd::arithmetic::div_mod::lemma_add_mod_noop(l, ((16 - l % 16) % 16) as int, 16);
        }
        lemma_cts_dec_enc(dk.enc@, buf@);
        lemma_seal_open(*enct, base_key@, usage, conf@, plaintext@);
        vstd::arithmetic::div_mod::lemma_mod_add_multiples_vanish(plaintext@.len() as int, 16);
    }
    let mut out = c;
    out.extend_from_slice(h.as_slice());
    assert(out@ =~= sealed(*enct, base_key@, usage, conf@, plaintext@));
    Ok(out)
}

/// Decrypt and verify an `EncryptedData.cipher` produced by [`encrypt`].
pub fn decrypt(enct: &Enctype, base_key: &[u8], usage: u32, cipher: &[u8]) -> (r: Result<Vec<u8>, Error>)
    requires
        valid_enctype(*enct),
    ensures
        match opened(*enct, base_key@, usage, cipher@) {
            Ok(p) => r matches Ok(v) && v@ == p,
            Err(e) => r matches Err(x) && x == e,
        },
{
    if cipher.len() < enct.cksumlen + 1 {
        return Err(Error::DecryptFailed);
    }
    let split = cipher.len() - enct.cksumlen;
    let c = &cipher[0..split];
    let expected = &cipher[split..cipher.len()];
    let dk = derive_keys(enct, base_key, usage);
    let hmac_input = mac_input_bytes(enct, usage, c);
    let actual = hmac_for(enct, dk.integ.as_slice(), hmac_input.as_slice());
    if !constant_time_eq(actual.as_slice(), expected) {
        return Err(Error::ChecksumMismatch);
    }
    let pt = match aes_cts_decrypt(dk.enc.as_slice(), c) {
        Ok(p) => p,
        Err(e) => return Err(e),
    };
    if pt.len() < BLOCK {
        return Err(Error::DecryptFailed);
    }
    let data = &pt.as_slice()[BLOCK..pt.len()];
    let mut end = data.len();
    assert(data@.subrange(0, end as int) =~= data@);
    while end > 0 && data[end - 1] == 0
        invariant
            end <= data@.len(),
            strip_zeros(data@) == strip_zeros(data@.subrange(0, end as int)),
        decreases end,
    {
        assert(data@.subrange(0, end as int).drop_last() =~= data@.subrange(0, end - 1));
        end = end - 1;
    }
    Ok(vstd::slice::slice_to_vec(&data[0..end]))
}

/// The checksum key `Kc`: for RFC 8009 the fixed KDF key of the checksum
/// label, else `DK(K, 0x00008003 | 0x55)`.
pub open spec fn cksum_key(e: Enctype, base: Seq<u8>) -> Seq<u8> {
    if is_rfc8009(e) {
        dr_spec(e, base, kdf_constant(label_cksum()), e.keylen as nat)
    } else {
        dr_spec(e, base, usage_constant(0x8003, 0x55), e.keylen as nat)
    }
}

/// Compute a standalone checksum (used for `Checksum`/`GSSAPI-MIC`).
///
/// The RFC 3962/8009 checksum is `HMAC(Kc, 0x0000 [|| usage] || data)` where
/// `Kc` is derived from the key with the special usage `0x8003`.
pub fn checksum(enct: &Enctype, base_key: &[u8], key_usage: u32, data: &[u8]) -> (r: Result<Vec<u8>, Error>)
    requires
        valid_enctype(*enct),
    ensures
        r matches Ok(v) && v@ == truncated_mac(*enct, cksum_key(*enct, base_key@), mac_input(*enct, key_usage, data@))
            && v@.len() == enct.cksumlen,
{
    let kc = if enct.is_rfc8009() {
        kdf_8009(enct, base_key, "kerberos-8009-KEY-CKSUM".as_bytes(), enct.keylen)
    } else {
        let c = usage_constant_bytes(0x8003, 0x55);
        dr(enct, base_key, c.as_slice(), enct.keylen)
    };
    let hmac_input = mac_input_bytes(enct, key_usage, data);
    Ok(hmac_for(enct, kc.as_slice(), hmac_input.as_slice()))
}

/// Constant-time equality for checksum / MIC verification.
pub fn constant_time_eq(a: &[u8], b: &[u8]) -> (r: bool)
    ensures
        r == (a@ == b@),
{
    ct_eq_bytes(a, b)
}

// ---------------------------------------------------------------------------
// Round trip
// ---------------------------------------------------------------------------

/// What AES-CTS encryption of `x` asks of the cipher: every block it encrypts
/// encrypts to a whole block that decrypts back to it (what the `aes` crate
/// states of each block it encrypts).
pub open spec fn cts_invertible_on(key: Seq<u8>, x: Seq<u8>) -> bool {
    let l = x.len() as int;
    if l == 0 {
        true
    } else if l <= 16 {
        let b = x + zeros((16 - l) as nat);
        &&& aes_encrypt_block(key, b).len() == 16
        &&& aes_decrypt_block(key, aes_encrypt_block(key, b)) == b
    } else {
        let n = (l - 1) / 16 + 1;
        let lastlen = l - (n - 1) * 16;
        let head = x.subrange(0, (n - 1) * 16);
        let xb = cbc_enc(key, zeros(16), head).subrange((n - 2) * 16, (n - 1) * 16);
        let b = xor_seq(x.subrange((n - 1) * 16, l) + zeros((16 - lastlen) as nat), xb);
        &&& cbc_invertible_on(key, zeros(16), head)
        &&& aes_encrypt_block(key, b).len() == 16
        &&& aes_decrypt_block(key, aes_encrypt_block(key, b)) == b
    }
}

proof fn lemma_xor_cancel(a: Seq<u8>, b: Seq<u8>)
    requires
        a.len() == b.len(),
    ensures
        xor_seq(xor_seq(a, b), b) == a,
{
    assert forall|i: int| 0 <= i < a.len() implies #[trigger] xor_seq(xor_seq(a, b), b)[i] == a[i] by {
        let x = a[i];
        let y = b[i];
        assert((x ^ y) ^ y == x) by (bit_vector);
    }
    assert(xor_seq(xor_seq(a, b), b) =~= a);
}

/// The last ciphertext block of a CBC encryption of `a` chained from `prev`
/// (`prev` itself when `a` is empty).
pub open spec fn cbc_last(key: Seq<u8>, prev: Seq<u8>, a: Seq<u8>) -> Seq<u8> {
    if a.len() == 0 {
        prev
    } else {
        cbc_enc(key, prev, a).subrange(a.len() - 16, a.len() as int)
    }
}

/// A CBC encryption of `a | b` the cipher inverts inverts on `a`, and on `b`
/// chained from the last block of `a`.
proof fn lemma_cbc_invertible_split(key: Seq<u8>, prev: Seq<u8>, a: Seq<u8>, b: Seq<u8>)
    requires
        a.len() % 16 == 0,
        prev.len() == 16,
        cbc_invertible_on(key, prev, a + b),
    ensures
        cbc_invertible_on(key, prev, a),
        cbc_invertible_on(key, cbc_last(key, prev, a), b),
    decreases a.len(),
{
    if a.len() == 0 {
        assert(a + b =~= b);
    } else {
        let ab = a + b;
        assert(ab.subrange(0, 16) =~= a.subrange(0, 16));
        let rest = a.subrange(16, a.len() as int);
        assert(ab.subrange(16, ab.len() as int) =~= rest + b);
        let c = aes_encrypt_block(key, xor_seq(a.subrange(0, 16), prev));
        lemma_cbc_invertible_split(key, c, rest, b);
        lemma_cbc_dec_enc(key, c, rest);
        let ea = cbc_enc(key, prev, a);
        assert(ea == c + cbc_enc(key, c, rest));
        if rest.len() == 0 {
            assert(ea.subrange(a.len() - 16, a.len() as int) =~= c);
        } else {
            let er = cbc_enc(key, c, rest);
            assert(ea.subrange(a.len() - 16, a.len() as int) =~= er.subrange(rest.len() - 16, rest.len() as int));
        }
    }
}

/// CBC-encrypting `a | b` is CBC-encrypting `a`, then `b` chained from the
/// last ciphertext block of `a`.
proof fn lemma_cbc_enc_split(key: Seq<u8>, prev: Seq<u8>, a: Seq<u8>, b: Seq<u8>)
    requires
        cbc_invertible_on(key, prev, a),
        a.len() % 16 == 0,
        b.len() % 16 == 0,
        prev.len() == 16,
    ensures
        cbc_enc(key, prev, a + b) == cbc_enc(key, prev, a) + cbc_enc(key, cbc_last(key, prev, a), b),
    decreases a.len(),
{
    if a.len() == 0 {
        assert(a + b =~= b);
        assert(cbc_enc(key, prev, a) =~= Seq::<u8>::empty());
        assert(Seq::<u8>::empty() + cbc_enc(key, prev, b) =~= cbc_enc(key, prev, b));
    } else {
        let ab = a + b;
        let blk = xor_seq(a.subrange(0, 16), prev);
        let c = aes_encrypt_block(key, blk);
        assert(ab.subrange(0, 16) =~= a.subrange(0, 16));
        let rest = a.subrange(16, a.len() as int);
        assert(ab.subrange(16, ab.len() as int) =~= rest + b);
        lemma_cbc_enc_split(key, c, rest, b);
        lemma_cbc_dec_enc(key, c, rest);
        lemma_cbc_dec_enc(key, prev, a);
        let ea = cbc_enc(key, prev, a);
        assert(ea == c + cbc_enc(key, c, rest));
        if rest.len() == 0 {
            assert(ea.subrange(a.len() - 16, a.len() as int) =~= c);
        } else {
            let er = cbc_enc(key, c, rest);
            assert(ea.subrange(a.len() - 16, a.len() as int) =~= er.subrange(rest.len() - 16, rest.len() as int));
        }
        assert(c + (cbc_enc(key, c, rest) + cbc_enc(key, cbc_last(key, c, rest), b)) =~= ea + cbc_enc(
            key,
            cbc_last(key, prev, a),
            b,
        ));
    }
}

/// AES-CTS decryption undoes AES-CTS encryption of whole blocks, where the
/// cipher inverts the blocks the encryption encrypts; the ciphertext is as
/// long as the plaintext.
proof fn lemma_cts_dec_enc(key: Seq<u8>, x: Seq<u8>)
    requires
        x.len() >= 16,
        x.len() % 16 == 0,
        cts_invertible_on(key, x),
    ensures
        cts_enc(key, x).len() == x.len(),
        cts_dec(key, cts_enc(key, x)) == Some(x),
{
    let l = x.len() as int;
    if l == 16 {
        assert(x + zeros(0) =~= x);
    } else {
        let n = (l - 1) / 16 + 1;
        assert(n * 16 == l);
        assert(n >= 2);
        let z = zeros(16);
        let head = x.subrange(0, (n - 1) * 16);
        let cbc = cbc_enc(key, z, head);
        lemma_cbc_dec_enc(key, z, head);
        let xb = cbc.subrange((n - 2) * 16, (n - 1) * 16);
        let pn = x.subrange((n - 1) * 16, l);
        assert(pn + zeros(0) =~= pn);
        let cn = aes_encrypt_block(key, xor_seq(pn, xb));
        let out = cts_enc(key, x);
        assert(xb.subrange(0, 16) =~= xb);
        assert(out == cbc.subrange(0, (n - 2) * 16) + cn + xb);
        assert(out.len() == l);
        assert(out.subrange((n - 2) * 16, (n - 1) * 16) =~= cn);
        assert(out.subrange((n - 1) * 16, l) =~= xb);
        let dn = aes_decrypt_block(key, cn);
        assert(dn == xor_seq(pn, xb));
        assert(xb + dn.subrange(16, 16) =~= xb);
        let front = out.subrange(0, (n - 2) * 16);
        assert(front =~= cbc.subrange(0, (n - 2) * 16));
        let a = x.subrange(0, (n - 2) * 16);
        let p1 = x.subrange((n - 2) * 16, (n - 1) * 16);
        assert(head =~= a + p1);
        lemma_cbc_invertible_split(key, z, a, p1);
        lemma_cbc_enc_split(key, z, a, p1);
        lemma_cbc_dec_enc(key, z, a);
        let ea = cbc_enc(key, z, a);
        let prevb = cbc_last(key, z, a);
        assert(cbc == ea + cbc_enc(key, prevb, p1));
        assert(front =~= ea);
        let c1 = aes_encrypt_block(key, xor_seq(p1, prevb));
        assert(p1.subrange(0, 16) =~= p1);
        assert(cbc_enc(key, prevb, p1.subrange(16, 16)) =~= Seq::<u8>::empty());
        assert(cbc_enc(key, prevb, p1) =~= c1);
        assert(xb =~= c1);
        lemma_xor_cancel(p1, prevb);
        lemma_xor_cancel(pn, xb);
        assert(dn.subrange(0, 16) =~= dn);
        if n == 2 {
            assert(a.len() == 0);
        } else {
            assert(front.subrange((n - 3) * 16, (n - 2) * 16) =~= prevb);
        }
        assert(cts_dec(key, out) == Some(a + p1 + pn));
        assert(a + p1 + pn =~= x);
    }
}

proof fn lemma_strip_zero_tail(s: Seq<u8>, k: nat)
    ensures
        strip_zeros(s + zeros(k)) == strip_zeros(s),
    decreases k,
{
    if k > 0 {
        let t = s + zeros(k);
        assert(t.last() == 0);
        assert(t.drop_last() =~= s + zeros((k - 1) as nat));
        lemma_strip_zero_tail(s, (k - 1) as nat);
    } else {
        assert(s + zeros(0) =~= s);
    }
}

/// Opening what [`encrypt`] sealed with the confounder `conf` gives the
/// plaintext back, less any trailing zero octets, where the AES-CTS
/// decryption undoes the encryption of the padded buffer and the HMAC has
/// the hash's length: the facts [`encrypt`] holds of its own call.
proof fn lemma_seal_open(e: Enctype, key: Seq<u8>, usage: u32, conf: Seq<u8>, pt: Seq<u8>)
    requires
        valid_enctype(e),
        conf.len() == 16,
        cts_enc(enc_key(e, key, usage), pad16(conf + pt)).len() == pad16(conf + pt).len(),
        cts_dec(enc_key(e, key, usage), cts_enc(enc_key(e, key, usage), pad16(conf + pt))) == Some(pad16(conf + pt)),
        hash_mac(
            e,
            integ_key(e, key, usage),
            mac_input(e, usage, cts_enc(enc_key(e, key, usage), pad16(conf + pt))),
        ).len() == e.hashlen,
    ensures
        opened(e, key, usage, sealed(e, key, usage, conf, pt)) == Ok::<Seq<u8>, Error>(strip_zeros(pt)),
{
    let ke = enc_key(e, key, usage);
    let ki = integ_key(e, key, usage);
    let buf = pad16(conf + pt);
    let padn = ((16 - (conf + pt).len() % 16) % 16) as nat;
    let c = cts_enc(ke, buf);
    let mac = truncated_mac(e, ki, mac_input(e, usage, c));
    assert(mac.len() == e.cksumlen);
    let cipher = sealed(e, key, usage, conf, pt);
    assert(cipher == c + mac);
    let split = cipher.len() - e.cksumlen;
    assert(cipher.subrange(0, split) =~= c);
    assert(cipher.subrange(split, cipher.len() as int) =~= mac);
    assert(buf.subrange(16, buf.len() as int) =~= pt + zeros(padn));
    lemma_strip_zero_tail(pt, padn);
}

} // verus!
