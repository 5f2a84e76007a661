//! The SK (Encrypted and Authenticated) payload envelope (RFC 7296 §3.14).

use vstd::prelude::*;
use crate::ipsec::crypto::{cbc_dec, cbc_enc, gcm_key_error, gcm_open, gcm_seal, key_error, mac_spec, random_bytes, Encr, Integ};
use crate::ipsec::error::Error;
use crate::primitives::ct_eq_bytes;
use crate::ipsec::message::{header_bytes, EncryptedPayload, Header, Payload};
use crate::ipsec::message::chain::{
    all_encodable, chain_bytes, chain_error, chain_payloads, decode_payloads_chain, encode_chain,
    payload_header_bytes, push_payload_header,
};
use crate::ipsec::types::PayloadType;

verus! {

/// The IKE padding of `len` octets of inner payloads: zero octets so that
/// those, the padding and the pad-length octet fill whole 16-octet blocks.
pub open spec fn pad_len_for(len: nat) -> nat {
    ((16 - ((len + 1) % 16)) % 16) as nat
}

/// The plaintext of an SK payload: the inner payload chain, its padding and
/// the pad-length octet.
pub open spec fn sk_plaintext(inner: Seq<Payload>) -> Seq<u8> {
    let body = chain_bytes(inner, inner.len());
    body + Seq::new(pad_len_for(body.len()), |i: int| 0u8) + seq![pad_len_for(body.len()) as u8]
}

/// The integrity checksum of a CBC-protected SK payload: the truncated MAC
/// over the IKE header, the SK payload header, the IV and the ciphertext.
pub open spec fn cbc_icv(i: Integ, sk_a: Seq<u8>, h: Header, next: PayloadType, iv: Seq<u8>, ct: Seq<u8>) -> Seq<u8> {
    let sk_len = (4 + iv.len() + ct.len() + i.spec_icv_len()) as nat;
    mac_spec(i, sk_a, header_bytes(h) + payload_header_bytes(next, false, sk_len) + iv + ct).subrange(
        0,
        i.spec_icv_len() as int,
    )
}

/// The wire octets of an SK payload.
pub open spec fn sk_wire_bytes(e: EncryptedPayload) -> Seq<u8> {
    payload_header_bytes(e.next_payload, e.critical, 4 + e.iv@.len() + e.ciphertext@.len() + e.icv@.len())
        + e.iv@ + e.ciphertext@ + e.icv@
}

/// The low sixteen bits of `4 + a + b + c`, kept small.
fn len16(a: usize, b: usize, c: usize) -> (r: usize)
    ensures
        r % 65536 == (4 + a + b + c) % 65536,
{
    let r = 4 + a % 65536 + b % 65536 + c % 65536;
    proof {
        let m: int = 65536;
        let (x, y, z) = (a as int, b as int, c as int);
        vstd::arithmetic::div_mod::lemma_add_mod_noop(4 + x, y, m);
        vstd::arithmetic::div_mod::lemma_add_mod_noop(4 + x + y, z, m);
        vstd::arithmetic::div_mod::lemma_add_mod_noop(4, x, m);
        vstd::arithmetic::div_mod::lemma_mod_twice(x, m);
        vstd::arithmetic::div_mod::lemma_mod_twice(y, m);
        vstd::arithmetic::div_mod::lemma_mod_twice(z, m);
        vstd::arithmetic::div_mod::lemma_add_mod_noop(4, x % m, m);
        vstd::arithmetic::div_mod::lemma_add_mod_noop(4 + x % m, y, m);
        vstd::arithmetic::div_mod::lemma_add_mod_noop(4 + x % m, y % m, m);
        vstd::arithmetic::div_mod::lemma_add_mod_noop(4 + x % m + y % m, z, m);
        vstd::arithmetic::div_mod::lemma_add_mod_noop(4 + x % m + y % m, z % m, m);
    }
    r
}

fn zero_padding(n: usize) -> (r: Vec<u8>)
    ensures
        r@ == Seq::new(n as nat, |i: int| 0u8),
{
    let mut v: Vec<u8> = Vec::new();
    let mut i: usize = 0;
    while i < n
        invariant
            i <= n,
            v@ == Seq::new(i as nat, |k: int| 0u8),
        decreases n - i,
    {
        v.push(0);
        i = i + 1;
        assert(v@ =~= Seq::new(i as nat, |k: int| 0u8));
    }
    v
}

/// The plaintext of the SK payload carrying `inner`.
fn padded_plaintext(inner: &[Payload]) -> (r: Vec<u8>)
    requires
        all_encodable(inner@),
    ensures
        r@ == sk_plaintext(inner@),
        r@.len() % 16 == 0,
{
    let mut plaintext = encode_chain(inner);
    let pad_len = (16 - ((plaintext.len() % 16 + 1) % 16)) % 16;
    proof {
        vstd::arithmetic::div_mod::lemma_add_mod_noop(plaintext@.len() as int, 1, 16);
        vstd::arithmetic::div_mod::lemma_mod_twice(plaintext@.len() as int, 16);
        vstd::arithmetic::div_mod::lemma_add_mod_noop((plaintext@.len() % 16) as int, 1, 16);
        assert(pad_len == pad_len_for(plaintext@.len()));
    }
    let ghost body = plaintext@;
    let pad = zero_padding(pad_len);
    plaintext.extend_from_slice(pad.as_slice());
    plaintext.push(pad_len as u8);
    proof {
        assert(plaintext@ =~= sk_plaintext(inner@));
        let l = body.len() as int;
        assert((l + pad_len + 1) % 16 == 0) by {
            vstd::arithmetic::div_mod::lemma_add_mod_noop(l + 1, pad_len as int, 16);
            vstd::arithmetic::div_mod::lemma_mod_twice(l + 1, 16);
        }
    }
    plaintext
}

/// What an AEAD SK payload built by [`EncryptedPayload::encrypt`] holds.
pub open spec fn aead_sealed(
    e: EncryptedPayload,
    sk_e: Seq<u8>,
    next: PayloadType,
    pt: Seq<u8>,
    iv: Option<Seq<u8>>,
    salt: Option<Seq<u8>>,
) -> bool {
    &&& e.next_payload == next
    &&& !e.critical
    &&& e.iv@.len() == 8
    &&& (iv matches Some(v) ==> (v.len() == 8 ==> e.iv@ == v))
    &&& e.icv@.len() == 16
    &&& exists|s4: Seq<u8>|
        #![trigger gcm_seal(sk_e, s4 + e.iv@, Seq::<u8>::empty(), pt)]
        s4.len() == 4 && (salt matches Some(s) ==> s4 == s) && e.ciphertext@ + e.icv@ == gcm_seal(
            sk_e,
            s4 + e.iv@,
            Seq::<u8>::empty(),
            pt,
        ) && gcm_open(sk_e, s4 + e.iv@, Seq::<u8>::empty(), e.ciphertext@ + e.icv@) == Some(pt)
}

/// What a CBC SK payload built by [`EncryptedPayload::encrypt`] holds.
pub open spec fn cbc_sealed(
    e: EncryptedPayload,
    i: Integ,
    h: Header,
    sk_e: Seq<u8>,
    sk_a: Seq<u8>,
    next: PayloadType,
    pt: Seq<u8>,
    iv: Option<Seq<u8>>,
) -> bool {
    &&& e.next_payload == next
    &&& !e.critical
    &&& (iv matches Some(v) ==> e.iv@ == v)
    &&& (iv is None ==> e.iv@.len() == 16)
    &&& e.ciphertext@ == cbc_enc(sk_e, e.iv@, pt)
    &&& e.ciphertext@.len() == pt.len()
    &&& cbc_dec(sk_e, e.iv@, e.ciphertext@) == pt
    &&& e.icv@ == cbc_icv(i, sk_a, h, next, e.iv@, e.ciphertext@)
    &&& e.icv@.len() == i.spec_icv_len()
}

/// An SK plaintext fills whole blocks.
proof fn lemma_sk_plaintext_blocks(inner: Seq<Payload>)
    ensures
        sk_plaintext(inner).len() % 16 == 0,
{
    let l = chain_bytes(inner, inner.len()).len() as int;
    let m = (l + 1) % 16;
    vstd::arithmetic::div_mod::lemma_fundamental_div_mod(l + 1, 16);
    if m == 0 {
        assert(pad_len_for(l as nat) == 0);
    } else {
        assert(pad_len_for(l as nat) == 16 - m);
        assert(l + 1 + (16 - m) == 16 * ((l + 1) / 16 + 1));
        vstd::arithmetic::div_mod::lemma_mod_multiples_basic((l + 1) / 16 + 1, 16);
    }
}

/// The view of an optional slice.
pub open spec fn opt_view(o: Option<&[u8]>) -> Option<Seq<u8>> {
    match o {
        Some(s) => Some(s@),
        None => None,
    }
}

/// The AEAD nonce salt: the given one, or four random octets.
fn salt_or_random(salt: Option<&[u8]>) -> (r: Vec<u8>)
    ensures
        salt matches Some(s) ==> r@ == s@,
        salt is None ==> r@.len() == 4,
{
    match salt {
        Some(s) => vstd::slice::slice_to_vec(s),
        None => random_bytes(4),
    }
}

/// The 8-octet AEAD IV: the given one when it has 8 octets, else random.
fn iv8_or_random(iv: Option<&[u8]>) -> (r: Vec<u8>)
    ensures
        r@.len() == 8,
        iv matches Some(v) ==> (v@.len() == 8 ==> r@ == v@),
{
    match iv {
        Some(i) => {
            if i.len() == 8 {
                vstd::slice::slice_to_vec(i)
            } else {
                random_bytes(8)
            }
        },
        None => random_bytes(8),
    }
}

/// Why opening an SK payload fails before its inner payloads are read.
pub enum OpenFailure {
    /// A cryptographic primitive refused, with its message.
    Crypto(Seq<char>),
    /// The integrity checksum does not match.
    Integrity,
    /// The ciphertext does not decrypt.
    Decrypt,
}

/// Opening the SK payload `e`: the plaintext, or why it fails. AEAD payloads
/// are opened with the nonce `salt | iv`; CBC payloads have their checksum
/// checked first, then are decrypted.
pub open spec fn sk_open(
    e: EncryptedPayload,
    encr: Encr,
    integ: Option<Integ>,
    h: Header,
    sk_e: Seq<u8>,
    sk_a: Seq<u8>,
    salt: Seq<u8>,
) -> Result<Seq<u8>, OpenFailure> {
    match encr {
        Encr::AesGcm { .. } => match gcm_key_error(encr, sk_e) {
            Some(m) => Err(OpenFailure::Crypto(m)),
            None => match gcm_open(sk_e, salt + e.iv@, Seq::empty(), e.ciphertext@ + e.icv@) {
                Some(p) => Ok(p),
                None => Err(OpenFailure::Decrypt),
            },
        },
        Encr::AesCbc { .. } => match integ {
            None => Err(OpenFailure::Crypto("CBC needs integrity"@)),
            Some(i) => if cbc_icv(i, sk_a, h, e.next_payload, e.iv@, e.ciphertext@) != e.icv@ {
                Err(OpenFailure::Integrity)
            } else {
                match key_error(encr.spec_key_len(), sk_e) {
                    Some(m) => Err(OpenFailure::Crypto(m)),
                    None => if e.ciphertext@.len() % 16 != 0 {
                        Err(OpenFailure::Decrypt)
                    } else {
                        Ok(cbc_dec(sk_e, e.iv@, e.ciphertext@))
                    },
                }
            },
        },
    }
}

/// The inner payload octets of a plaintext: without its padding and
/// pad-length octet, when the pad length fits.
pub open spec fn sk_inner(pt: Seq<u8>) -> Option<Seq<u8>> {
    if pt.len() == 0 || pt.last() + 1 > pt.len() {
        None
    } else {
        Some(pt.subrange(0, pt.len() - 1 - pt.last()))
    }
}

/// `r` is the error an opening failure gives.
pub open spec fn failure_is(f: OpenFailure, r: Result<Vec<Payload>, Error>) -> bool {
    match f {
        OpenFailure::Crypto(m) => r matches Err(Error::Crypto(s)) && s@ == m,
        OpenFailure::Integrity => r == Err::<Vec<Payload>, Error>(Error::IntegrityCheckFailed),
        OpenFailure::Decrypt => r == Err::<Vec<Payload>, Error>(Error::DecryptFailed),
    }
}

/// What decrypting an SK payload gives: the opening's error, a decryption
/// error when the padding does not fit, or the inner payload chain's error
/// or payloads.
pub open spec fn sk_decrypted(o: Result<Seq<u8>, OpenFailure>, next: PayloadType, r: Result<Vec<Payload>, Error>) -> bool {
    match o {
        Err(f) => failure_is(f, r),
        Ok(pt) => match sk_inner(pt) {
            None => r == Err::<Vec<Payload>, Error>(Error::DecryptFailed),
            Some(inner) => match chain_error(inner, 0, next) {
                Some(e) => r == Err::<Vec<Payload>, Error>(e),
                None => r matches Ok(ps) && chain_payloads(inner, 0, next, ps@),
            },
        },
    }
}

impl EncryptedPayload {
    /// Open the payload: its plaintext, or why it fails.
    fn open(&self, encr: Encr, integ: Option<Integ>, header: &Header, sk_e: &[u8], sk_a: &[u8], salt: &[u8]) -> (r: Result<Vec<u8>, Error>)
        requires
            encr is AesGcm ==> salt@.len() + self.iv@.len() == 12,
        ensures
            match sk_open(*self, encr, integ, *header, sk_e@, sk_a@, salt@) {
                Ok(p) => r matches Ok(v) && v@ == p,
                Err(f) => match f {
                    OpenFailure::Crypto(m) => r matches Err(Error::Crypto(s)) && s@ == m,
                    OpenFailure::Integrity => r == Err::<Vec<u8>, Error>(Error::IntegrityCheckFailed),
                    OpenFailure::Decrypt => r == Err::<Vec<u8>, Error>(Error::DecryptFailed),
                },
            },
    {
        if encr.is_aead() {
            let mut nonce = vstd::slice::slice_to_vec(salt);
            nonce.extend_from_slice(self.iv.as_slice());
            assert(nonce@ =~= salt@ + self.iv@);
            let empty: Vec<u8> = Vec::new();
            assert(empty@ =~= Seq::<u8>::empty());
            encr.aead_decrypt(sk_e, nonce.as_slice(), self.ciphertext.as_slice(), self.icv.as_slice(), empty.as_slice())
        } else {
            let integ = match integ {
                Some(i) => i,
                None => return Err(Error::Crypto(String::from_str("CBC needs integrity"))),
            };
            let sk_len = len16(self.iv.len(), self.ciphertext.len(), integ.icv_len());
            let mut v = header.encode();
            push_payload_header(&mut v, self.next_payload, false, sk_len);
            v.extend_from_slice(self.iv.as_slice());
            v.extend_from_slice(self.ciphertext.as_slice());
            proof {
                let full = (4 + self.iv@.len() + self.ciphertext@.len() + integ.spec_icv_len()) as nat;
                assert(payload_header_bytes(self.next_payload, false, sk_len as nat) == payload_header_bytes(
                    self.next_payload,
                    false,
                    full,
                ));
                assert(v@ =~= header_bytes(*header) + payload_header_bytes(self.next_payload, false, full) + self.iv@
                    + self.ciphertext@);
            }
            let expected = integ.icv(sk_a, v.as_slice());
            if expected.len() != self.icv.len() || !ct_eq_bytes(expected.as_slice(), self.icv.as_slice()) {
                return Err(Error::IntegrityCheckFailed);
            }
            encr.cbc_decrypt(sk_e, self.iv.as_slice(), self.ciphertext.as_slice())
        }
    }

    /// Decrypt and decode the inner payloads. `header` is the full IKE header
    /// (as received) used for the CBC integrity checksum.
    pub fn decrypt(
        &self,
        encr: Encr,
        integ: Option<Integ>,
        header: &Header,
        sk_e: &[u8],
        sk_a: &[u8],
        salt: &[u8],
    ) -> (r: Result<Vec<Payload>, Error>)
        requires
            encr is AesGcm ==> salt@.len() + self.iv@.len() == 12,
        ensures
            sk_decrypted(sk_open(*self, encr, integ, *header, sk_e@, sk_a@, salt@), self.next_payload, r),
    {
        let plaintext = match self.open(encr, integ, header, sk_e, sk_a, salt) {
            Ok(p) => p,
            Err(e) => return Err(e),
        };
        if plaintext.len() == 0 {
            return Err(Error::DecryptFailed);
        }
        let pad_len = plaintext[plaintext.len() - 1] as usize;
        if pad_len + 1 > plaintext.len() {
            return Err(Error::DecryptFailed);
        }
        let inner = &plaintext.as_slice()[0..plaintext.len() - 1 - pad_len];
        decode_payloads_chain(inner, self.next_payload)
    }

    /// Encrypt `inner` payloads into an SK payload.
    ///
    /// `header` is the (already length-correct) IKE header that will precede
    /// this SK payload, used for the CBC integrity checksum. `sk_e`/`sk_a`
    /// are the IKE SA encryption/integrity keys. `iv`/`salt` allow
    /// deterministic tests; if `None` they are generated randomly.
    pub fn encrypt(
        encr: Encr,
        integ: Option<Integ>,
        header: &Header,
        next: PayloadType,
        inner: &[Payload],
        sk_e: &[u8],
        sk_a: &[u8],
        iv: Option<&[u8]>,
        salt: Option<&[u8]>,
    ) -> (r: Result<EncryptedPayload, Error>)
        requires
            all_encodable(inner@),
            encr is AesGcm ==> (salt matches Some(s) ==> s@.len() == 4),
            encr is AesCbc ==> (iv matches Some(v) ==> v@.len() >= 16),
        ensures
            match encr {
                Encr::AesGcm { .. } => match gcm_key_error(encr, sk_e@) {
                    Some(m) => r matches Err(Error::Crypto(s)) && s@ == m,
                    None => if sk_plaintext(inner@).len() > 0x1000000000 {
                        r matches Err(Error::Crypto(s)) && s@ == "gcm encrypt failed"@
                    } else {
                        r matches Ok(e) && aead_sealed(e, sk_e@, next, sk_plaintext(inner@), opt_view(iv), opt_view(salt))
                    },
                },
                Encr::AesCbc { .. } => match integ {
                    None => r matches Err(Error::Crypto(s)) && s@ == "CBC needs integrity"@,
                    Some(i) => match key_error(encr.spec_key_len(), sk_e@) {
                        Some(m) => r matches Err(Error::Crypto(s)) && s@ == m,
                        None => r matches Ok(e) && cbc_sealed(e, i, *header, sk_e@, sk_a@, next, sk_plaintext(inner@), opt_view(iv)),
                    },
                },
            },
    {
        let plaintext = padded_plaintext(inner);
        if encr.is_aead() {
            let salt4 = salt_or_random(salt);
            let iv8 = iv8_or_random(iv);
            let mut nonce = vstd::slice::slice_to_vec(salt4.as_slice());
            nonce.extend_from_slice(iv8.as_slice());
            assert(nonce@ =~= salt4@ + iv8@);
            let empty: Vec<u8> = Vec::new();
            let (ct, tag) = match encr.aead_encrypt(sk_e, nonce.as_slice(), plaintext.as_slice(), empty.as_slice()) {
                Ok(x) => x,
                Err(e) => return Err(e),
            };
            let r = EncryptedPayload { next_payload: next, critical: false, iv: iv8, ciphertext: ct, icv: tag };
            proof {
                assert(empty@ =~= Seq::<u8>::empty());
                assert(r.ciphertext@ + r.icv@ == gcm_seal(sk_e@, salt4@ + r.iv@, Seq::<u8>::empty(), plaintext@));
                assert(aead_sealed(r, sk_e@, next, sk_plaintext(inner@), opt_view(iv), opt_view(salt)));
            }
            Ok(r)
        } else {
            let integ = match integ {
                Some(i) => i,
                None => return Err(Error::Crypto(String::from_str("CBC needs integrity"))),
            };
            let iv = match iv {
                Some(i) => vstd::slice::slice_to_vec(i),
                None => random_bytes(encr.cbc_iv_len()),
            };
            proof {
                lemma_sk_plaintext_blocks(inner@);
            }
            let ct = match encr.cbc_encrypt(sk_e, iv.as_slice(), plaintext.as_slice()) {
                Ok(c) => c,
                Err(e) => return Err(e),
            };
            proof {
                crate::ipsec::crypto::lemma_cbc_dec_enc(sk_e@, iv@, plaintext@);
            }
            let icv_len = integ.icv_len();
            let sk_len = len16(iv.len(), ct.len(), icv_len);
            let mut v = header.encode();
            push_payload_header(&mut v, next, false, sk_len);
            v.extend_from_slice(iv.as_slice());
            v.extend_from_slice(ct.as_slice());
            proof {
                assert(payload_header_bytes(next, false, sk_len as nat) == payload_header_bytes(
                    next,
                    false,
                    (4 + iv@.len() + ct@.len() + integ.spec_icv_len()) as nat,
                ));
            }
            assert(v@ =~= header_bytes(*header) + payload_header_bytes(
                next,
                false,
                (4 + iv@.len() + ct@.len() + integ.spec_icv_len()) as nat,
            ) + iv@ + ct@);
            let icv = integ.icv(sk_a, v.as_slice());
            Ok(EncryptedPayload { next_payload: next, critical: false, iv, ciphertext: ct, icv })
        }
    }

    /// Re-assemble the full SK payload wire bytes (header + iv + ct + icv/tag).
    pub fn to_wire(&self) -> (r: Vec<u8>)
        ensures
            r@ == sk_wire_bytes(*self),
    {
        let sk_len = len16(self.iv.len(), self.ciphertext.len(), self.icv.len());
        let mut out: Vec<u8> = Vec::new();
        push_payload_header(&mut out, self.next_payload, self.critical, sk_len);
        proof {
            assert(payload_header_bytes(self.next_payload, self.critical, sk_len as nat) == payload_header_bytes(
                self.next_payload,
                self.critical,
                4 + self.iv@.len() + self.ciphertext@.len() + self.icv@.len(),
            ));
        }
        out.extend_from_slice(self.iv.as_slice());
        out.extend_from_slice(self.ciphertext.as_slice());
        out.extend_from_slice(self.icv.as_slice());
        assert(out@ =~= sk_wire_bytes(*self));
        out
    }
}


/// An AEAD SK payload sealed under a known salt opens, under that salt and
/// key, to the plaintext it sealed.
pub proof fn lemma_aead_open_sealed(
    e: EncryptedPayload,
    encr: Encr,
    integ: Option<Integ>,
    h: Header,
    sk_e: Seq<u8>,
    sk_a: Seq<u8>,
    next: PayloadType,
    pt: Seq<u8>,
    iv: Option<Seq<u8>>,
    salt: Seq<u8>,
)
    requires
        encr is AesGcm,
        gcm_key_error(encr, sk_e) is None,
        aead_sealed(e, sk_e, next, pt, iv, Some(salt)),
    ensures
        sk_open(e, encr, integ, h, sk_e, sk_a, salt) == Ok::<Seq<u8>, OpenFailure>(pt),
{
}

/// A CBC SK payload sealed over whole blocks, under a key that fits the
/// cipher, passes its checksum and opens, under that key and integrity key,
/// to the plaintext it sealed.
pub proof fn lemma_cbc_open_sealed(
    e: EncryptedPayload,
    encr: Encr,
    i: Integ,
    h: Header,
    sk_e: Seq<u8>,
    sk_a: Seq<u8>,
    next: PayloadType,
    pt: Seq<u8>,
    iv: Option<Seq<u8>>,
    salt: Seq<u8>,
)
    requires
        encr is AesCbc,
        key_error(encr.spec_key_len(), sk_e) is None,
        pt.len() % 16 == 0,
        cbc_sealed(e, i, h, sk_e, sk_a, next, pt, iv),
    ensures
        sk_open(e, encr, Some(i), h, sk_e, sk_a, salt) == Ok::<Seq<u8>, OpenFailure>(pt),
{
}

/// An SK plaintext fills whole blocks, and its inner payload octets are the
/// payload chain it was built from.
pub proof fn lemma_sk_inner_plaintext(inner: Seq<Payload>)
    ensures
        sk_plaintext(inner).len() % 16 == 0,
        sk_inner(sk_plaintext(inner)) == Some(chain_bytes(inner, inner.len())),
{
    lemma_sk_plaintext_blocks(inner);
    let body = chain_bytes(inner, inner.len());
    let n = pad_len_for(body.len());
    let pt = sk_plaintext(inner);
    assert(n < 16);
    assert(pt.last() == n as u8);
    assert(pt.subrange(0, pt.len() - 1 - n) =~= body);
}

} // verus!
