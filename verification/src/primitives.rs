//! Block cipher and keyed hash primitives of the RustCrypto crates, shared by
//! the protocol modules: HMAC over SHA-1 and SHA-2, single AES blocks, and the
//! byte-wise XOR they are chained with.

use vstd::prelude::*;
use hmac::Mac;
use aes::cipher::{BlockDecrypt, BlockEncrypt, KeyInit};

verus! {

/// The HMAC-SHA-1 tag of `data` under `key` (crate `hmac` over `sha1`).
pub uninterp spec fn hmac_sha1(key: Seq<u8>, data: Seq<u8>) -> Seq<u8>;

/// The HMAC-SHA-256 tag of `data` under `key` (crate `hmac` over `sha2`).
pub uninterp spec fn hmac_sha256(key: Seq<u8>, data: Seq<u8>) -> Seq<u8>;

/// The HMAC-SHA-384 tag of `data` under `key` (crate `hmac` over `sha2`).
pub uninterp spec fn hmac_sha384(key: Seq<u8>, data: Seq<u8>) -> Seq<u8>;

/// The HMAC-SHA-512 tag of `data` under `key` (crate `hmac` over `sha2`).
pub uninterp spec fn hmac_sha512(key: Seq<u8>, data: Seq<u8>) -> Seq<u8>;

/// `Hmac::<Sha1>` (crates `hmac`, `sha1`): `new_from_slice` accepts keys of
/// any length (longer keys are hashed first), and the tag is 20 octets.
#[verifier::external_body]
pub(crate) fn hmac_sha1_tag(key: &[u8], data: &[u8]) -> (r: Vec<u8>)
    ensures
        r@ == hmac_sha1(key@, data@),
        r@.len() == 20,
{
    let mut m = <hmac::Hmac<sha1::Sha1> as Mac>::new_from_slice(key).expect("HMAC accepts any key length");
    m.update(data);
    m.finalize().into_bytes().to_vec()
}

/// `Hmac::<Sha256>` (crates `hmac`, `sha2`): `new_from_slice` accepts keys
/// of any length, and the tag is 32 octets.
#[verifier::external_body]
pub(crate) fn hmac_sha256_tag(key: &[u8], data: &[u8]) -> (r: Vec<u8>)
    ensures
        r@ == hmac_sha256(key@, data@),
        r@.len() == 32,
{
    let mut m = <hmac::Hmac<sha2::Sha256> as Mac>::new_from_slice(key).expect("HMAC accepts any key length");
    m.update(data);
    m.finalize().into_bytes().to_vec()
}

/// `Hmac::<Sha384>` (crates `hmac`, `sha2`): `new_from_slice` accepts keys
/// of any length, and the tag is 48 octets.
#[verifier::external_body]
pub(crate) fn hmac_sha384_tag(key: &[u8], data: &[u8]) -> (r: Vec<u8>)
    ensures
        r@ == hmac_sha384(key@, data@),
        r@.len() == 48,
{
    let mut m = <hmac::Hmac<sha2::Sha384> as Mac>::new_from_slice(key).expect("HMAC accepts any key length");
    m.update(data);
    m.finalize().into_bytes().to_vec()
}

/// `Hmac::<Sha512>` (crates `hmac`, `sha2`): `new_from_slice` accepts keys
/// of any length, and the tag is 64 octets.
#[verifier::external_body]
pub(crate) fn hmac_sha512_tag(key: &[u8], data: &[u8]) -> (r: Vec<u8>)
    ensures
        r@ == hmac_sha512(key@, data@),
        r@.len() == 64,
{
    let mut m = <hmac::Hmac<sha2::Sha512> as Mac>::new_from_slice(key).expect("HMAC accepts any key length");
    m.update(data);
    m.finalize().into_bytes().to_vec()
}

/// AES encryption of one 16-octet block under a key of 16, 24 or 32 octets.
pub uninterp spec fn aes_encrypt_block(key: Seq<u8>, block: Seq<u8>) -> Seq<u8>;

/// AES decryption of one 16-octet block under a key of 16, 24 or 32 octets.
pub uninterp spec fn aes_decrypt_block(key: Seq<u8>, block: Seq<u8>) -> Seq<u8>;

/// `aes::Aes128` / `Aes192` / `Aes256` `encrypt_block` (crate `aes`): one
/// block encrypted under the key; the key length picks the cipher, and
/// `decrypt_block` under the same key gives the block back.
#[verifier::external_body]
pub(crate) fn aes_encrypt(key: &[u8], block: &[u8]) -> (r: Vec<u8>)
    requires
        key@.len() == 16 || key@.len() == 24 || key@.len() == 32,
        block@.len() == 16,
    ensures
        r@ == aes_encrypt_block(key@, block@),
        r@.len() == 16,
        aes_decrypt_block(key@, r@) == block@,
{
    let mut b = aes::cipher::generic_array::GenericArray::clone_from_slice(block);
    match key.len() {
        16 => aes::Aes128::new_from_slice(key).expect("length checked").encrypt_block(&mut b),
        24 => aes::Aes192::new_from_slice(key).expect("length checked").encrypt_block(&mut b),
        _ => aes::Aes256::new_from_slice(key).expect("length checked").encrypt_block(&mut b),
    }
    b.to_vec()
}

/// `aes::Aes128` / `Aes192` / `Aes256` `decrypt_block` (crate `aes`): one
/// block decrypted under the key; the key length picks the cipher.
#[verifier::external_body]
pub(crate) fn aes_decrypt(key: &[u8], block: &[u8]) -> (r: Vec<u8>)
    requires
        key@.len() == 16 || key@.len() == 24 || key@.len() == 32,
        block@.len() == 16,
    ensures
        r@ == aes_decrypt_block(key@, block@),
        r@.len() == 16,
{
    let mut b = aes::cipher::generic_array::GenericArray::clone_from_slice(block);
    match key.len() {
        16 => aes::Aes128::new_from_slice(key).expect("length checked").decrypt_block(&mut b),
        24 => aes::Aes192::new_from_slice(key).expect("length checked").decrypt_block(&mut b),
        _ => aes::Aes256::new_from_slice(key).expect("length checked").decrypt_block(&mut b),
    }
    b.to_vec()
}

/// `a` and `b` combined octet by octet with XOR, over the shorter length.
pub open spec fn xor_seq(a: Seq<u8>, b: Seq<u8>) -> Seq<u8> {
    Seq::new(if a.len() < b.len() { a.len() } else { b.len() }, |i: int| a[i] ^ b[i])
}

pub(crate) fn xor_block(a: &[u8], b: &[u8]) -> (r: Vec<u8>)
    ensures
        r@ == xor_seq(a@, b@),
{
    let n = if a.len() < b.len() {
        a.len()
    } else {
        b.len()
    };
    let mut out: Vec<u8> = Vec::new();
    let mut i: usize = 0;
    while i < n
        invariant
            i <= n,
            n == (if a@.len() < b@.len() { a@.len() } else { b@.len() }),
            out@ == xor_seq(a@, b@).subrange(0, i as int),
        decreases n - i,
    {
        out.push(a[i] ^ b[i]);
        i = i + 1;
        assert(out@ =~= xor_seq(a@, b@).subrange(0, i as int));
    }
    assert(out@ =~= xor_seq(a@, b@));
    out
}

/// `ConstantTimeEq::ct_eq` on byte slices (crate `subtle`), as a `bool`:
/// the slices are equal (it answers no at once for different lengths).
#[verifier::external_body]
pub(crate) fn ct_eq_bytes(a: &[u8], b: &[u8]) -> (r: bool)
    ensures
        r == (a@ == b@),
{
    bool::from(subtle::ConstantTimeEq::ct_eq(a, b))
}

/// `getrandom::getrandom` (crate `getrandom`) into a buffer of `n` octets:
/// `n` octets from the system's secure source, or, when it could not read
/// them, the error's text (its `Display`) after `getrandom: `, kept for the
/// rest of the process.
#[verifier::external_body]
pub(crate) fn random_octets(n: usize) -> (r: Result<Vec<u8>, &'static str>)
    ensures
        r matches Ok(v) ==> v@.len() == n,
{
    let mut buf = vec![0u8; n];
    match getrandom::getrandom(&mut buf) {
        Ok(()) => Ok(buf),
        Err(e) => Err(Box::leak(format!("getrandom: {e}").into_boxed_str())),
    }
}

} // verus!
