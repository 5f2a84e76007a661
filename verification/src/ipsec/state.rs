//! IKEv2 IKE SA parameters and key derivation (RFC 7296 §2.13–§2.18).

use vstd::prelude::*;
use crate::ipsec::crypto::{prf_plus_spec, prf_spec, Encr, Integ, Prf};
use crate::ipsec::types::{DhGroup, EncrId, IntegId, PrfId};

verus! {

/// Negotiated algorithm identifiers.
#[derive(Debug, Clone, Copy, PartialEq, Eq, Structural)]
pub struct SaParams {
    /// The pseudo-random function.
    pub prf: PrfId,
    /// The encryption algorithm.
    pub encr: EncrId,
    /// The integrity algorithm (none for AEAD).
    pub integ: Option<IntegId>,
    /// The Diffie-Hellman group.
    pub dh: DhGroup,
}

/// The PRF a PRF id names.
pub open spec fn prf_of(id: PrfId) -> Prf {
    match id {
        PrfId::HmacSha1 => Prf::Sha1,
        PrfId::HmacSha256 => Prf::Sha256,
        PrfId::HmacSha384 => Prf::Sha384,
        PrfId::HmacSha512 => Prf::Sha512,
    }
}

/// The encryption algorithm an encryption id names.
pub open spec fn encr_of(id: EncrId) -> Encr {
    match id {
        EncrId::AesCbc128 => Encr::AesCbc { key_len: 16 },
        EncrId::AesCbc192 => Encr::AesCbc { key_len: 24 },
        EncrId::AesCbc256 => Encr::AesCbc { key_len: 32 },
        EncrId::AesGcm16_128 => Encr::AesGcm { key_len: 16 },
        EncrId::AesGcm16_192 => Encr::AesGcm { key_len: 24 },
        EncrId::AesGcm16_256 => Encr::AesGcm { key_len: 32 },
    }
}

/// The integrity algorithm an integrity id names.
pub open spec fn integ_of(id: IntegId) -> Integ {
    match id {
        IntegId::HmacSha1_96 => Integ::HmacSha1_96,
        IntegId::HmacSha256_128 => Integ::HmacSha256_128,
        IntegId::HmacSha384_192 => Integ::HmacSha384_192,
        IntegId::HmacSha512_256 => Integ::HmacSha512_256,
    }
}

impl SaParams {
    /// The negotiated PRF.
    pub fn prf(self) -> (p: Prf)
        ensures
            p == prf_of(self.prf),
    {
        Prf::from_id(self.prf)
    }

    /// The negotiated encryption algorithm.
    pub fn encr(self) -> (e: Encr)
        ensures
            e == encr_of(self.encr),
    {
        Encr::from_id(self.encr)
    }

    /// The negotiated integrity algorithm, if any.
    pub fn integ(self) -> (i: Option<Integ>)
        ensures
            i == (match self.integ {
                Some(id) => Some(integ_of(id)),
                None => None::<Integ>,
            }),
    {
        match self.integ {
            Some(id) => Some(Integ::from_id(id)),
            None => None,
        }
    }
}

/// The seven IKE SA keys (RFC 7296 §2.14).
#[derive(Debug, Clone)]
pub struct IkeSaKeys {
    /// SK_d, for deriving CHILD SA keys.
    pub sk_d: Vec<u8>,
    /// SK_ai, the initiator's integrity key.
    pub sk_ai: Vec<u8>,
    /// SK_ar, the responder's integrity key.
    pub sk_ar: Vec<u8>,
    /// SK_ei, the initiator's encryption key.
    pub sk_ei: Vec<u8>,
    /// SK_er, the responder's encryption key.
    pub sk_er: Vec<u8>,
    /// SK_pi, the initiator's AUTH key.
    pub sk_pi: Vec<u8>,
    /// SK_pr, the responder's AUTH key.
    pub sk_pr: Vec<u8>,
}

/// The length of each of SK_d, SK_pi and SK_pr: the PRF's output length.
pub open spec fn prf_key_len(p: SaParams) -> nat {
    prf_of(p.prf).spec_output_len() as nat
}

/// The length of each integrity key (none without an integrity algorithm).
pub open spec fn integ_key_len(p: SaParams) -> nat {
    match p.integ {
        Some(i) => integ_of(i).spec_key_len() as nat,
        None => 0,
    }
}

/// The length of each encryption key: the cipher key, plus a 4-octet salt
/// for AEAD.
pub open spec fn encr_key_len(p: SaParams) -> nat {
    encr_of(p.encr).spec_key_len() as nat + if encr_of(p.encr) is AesGcm {
        4nat
    } else {
        0nat
    }
}

/// The keying material the seven keys take.
pub open spec fn keymat_len(p: SaParams) -> nat {
    3 * prf_key_len(p) + 2 * integ_key_len(p) + 2 * encr_key_len(p)
}

/// `k` holds the seven keys cut in order from the keying material `km`:
/// SK_d, SK_ai, SK_ar, SK_ei, SK_er, SK_pi, SK_pr.
pub open spec fn keys_from(k: IkeSaKeys, p: SaParams, km: Seq<u8>) -> bool {
    let lp = prf_key_len(p) as int;
    let li = integ_key_len(p) as int;
    let le = encr_key_len(p) as int;
    &&& k.sk_d@ == km.subrange(0, lp)
    &&& k.sk_ai@ == km.subrange(lp, lp + li)
    &&& k.sk_ar@ == km.subrange(lp + li, lp + 2 * li)
    &&& k.sk_ei@ == km.subrange(lp + 2 * li, lp + 2 * li + le)
    &&& k.sk_er@ == km.subrange(lp + 2 * li + le, lp + 2 * li + 2 * le)
    &&& k.sk_pi@ == km.subrange(lp + 2 * li + 2 * le, 2 * lp + 2 * li + 2 * le)
    &&& k.sk_pr@ == km.subrange(2 * lp + 2 * li + 2 * le, 3 * lp + 2 * li + 2 * le)
}

/// The seed of the IKE SA key expansion: `Ni | Nr | SPIi | SPIr`.
pub open spec fn key_seed(ni: Seq<u8>, nr: Seq<u8>, spii: Seq<u8>, spir: Seq<u8>) -> Seq<u8> {
    ni + nr + spii + spir
}

/// The seven keys expanded from `SKEYSEED` (RFC 7296 §2.14):
/// `prf+(SKEYSEED, Ni | Nr | SPIi | SPIr)` cut in order.
pub open spec fn keys_expanded(k: IkeSaKeys, p: SaParams, skeyseed: Seq<u8>, seed: Seq<u8>) -> bool {
    keys_from(k, p, prf_plus_spec(prf_of(p.prf), skeyseed, seed, keymat_len(p)))
}

pub(crate) fn concat(a: &[u8], b: &[u8]) -> (r: Vec<u8>)
    ensures
        r@ == a@ + b@,
{
    let mut v = vstd::slice::slice_to_vec(a);
    v.extend_from_slice(b);
    v
}

fn slice_vec(b: &[u8], i: usize, j: usize) -> (r: Vec<u8>)
    requires
        i <= j <= b@.len(),
    ensures
        r@ == b@.subrange(i as int, j as int),
{
    vstd::slice::slice_to_vec(&b[i..j])
}

#[verifier::rlimit(30)]
fn derive_keys_from_skeyseed(
    params: SaParams,
    skeyseed: &[u8],
    ni: &[u8],
    nr: &[u8],
    spii: &[u8; 8],
    spir: &[u8; 8],
) -> (k: IkeSaKeys)
    ensures
        keys_expanded(k, params, skeyseed@, key_seed(ni@, nr@, spii@, spir@)),
{
    let prf = params.prf();
    let encr = params.encr();
    let integ = params.integ();
    let mut seed = concat(ni, nr);
    seed.extend_from_slice(spii.as_slice());
    seed.extend_from_slice(spir.as_slice());
    assert(seed@ =~= key_seed(ni@, nr@, spii@, spir@));
    let le = encr.key_len() + if encr.is_aead() { 4 } else { 0 };
    let li: usize = match integ {
        Some(i) => i.key_len(),
        None => 0,
    };
    let lp = prf.output_len();
    assert(lp == prf_key_len(params) && li == integ_key_len(params) && le == encr_key_len(params));
    assert(lp <= 64 && li <= 64 && le <= 36);
    let needed = lp + 2 * li + 2 * le + 2 * lp;
    assert(needed == keymat_len(params));
    let km = prf.prf_plus(skeyseed, seed.as_slice(), needed);
    let ghost kmv = km@;
    let b = km.as_slice();
    let mut o: usize = 0;
    let sk_d = slice_vec(b, o, o + lp);
    o = o + lp;
    let sk_ai = slice_vec(b, o, o + li);
    o = o + li;
    let sk_ar = slice_vec(b, o, o + li);
    o = o + li;
    let sk_ei = slice_vec(b, o, o + le);
    o = o + le;
    let sk_er = slice_vec(b, o, o + le);
    o = o + le;
    let sk_pi = slice_vec(b, o, o + lp);
    o = o + lp;
    let sk_pr = slice_vec(b, o, o + lp);
    let k = IkeSaKeys { sk_d, sk_ai, sk_ar, sk_ei, sk_er, sk_pi, sk_pr };
    assert(keys_from(k, params, kmv));
    k
}

/// `SKEYSEED = prf(Ni | Nr, g^ir)` (RFC 7296 §2.14).
pub open spec fn skeyseed(p: SaParams, ni: Seq<u8>, nr: Seq<u8>, gir: Seq<u8>) -> Seq<u8> {
    prf_spec(prf_of(p.prf), ni + nr, gir)
}

/// Derive the seven IKE SA keys (RFC 7296 §2.14).
pub fn derive_keys(params: SaParams, ni: &[u8], nr: &[u8], spii: &[u8; 8], spir: &[u8; 8], gir: &[u8]) -> (k: IkeSaKeys)
    ensures
        keys_expanded(k, params, skeyseed(params, ni@, nr@, gir@), key_seed(ni@, nr@, spii@, spir@)),
{
    let prf = params.prf();
    let nn = concat(ni, nr);
    let seed = prf.prf(nn.as_slice(), gir);
    derive_keys_from_skeyseed(params, seed.as_slice(), ni, nr, spii, spir)
}

/// The `SKEYSEED` of a rekeyed IKE SA (RFC 7296 §2.18):
/// `prf(SK_d(old), g^ir(new) | Ni | Nr)`.
pub open spec fn rekey_skeyseed(p: SaParams, sk_d_old: Seq<u8>, ni: Seq<u8>, nr: Seq<u8>, gir_new: Seq<u8>) -> Seq<u8> {
    prf_spec(prf_of(p.prf), sk_d_old, gir_new + ni + nr)
}

/// Rekey the IKE SA (RFC 7296 §2.18): `SKEYSEED = prf(SK_d(old), g^ir | Ni | Nr)`.
pub fn rekey_ike_keys(
    params: SaParams,
    sk_d_old: &[u8],
    ni: &[u8],
    nr: &[u8],
    new_spii: &[u8; 8],
    new_spir: &[u8; 8],
    gir_new: &[u8],
) -> (k: IkeSaKeys)
    ensures
        keys_expanded(
            k,
            params,
            rekey_skeyseed(params, sk_d_old@, ni@, nr@, gir_new@),
            key_seed(ni@, nr@, new_spii@, new_spir@),
        ),
{
    let prf = params.prf();
    let mut base = concat(gir_new, ni);
    base.extend_from_slice(nr);
    assert(base@ =~= gir_new@ + ni@ + nr@);
    let seed = prf.prf(sk_d_old, base.as_slice());
    derive_keys_from_skeyseed(params, seed.as_slice(), ni, nr, new_spii, new_spir)
}

/// Derive CHILD SA keying material (RFC 7296 §2.17): `prf+(SK_d, Ni | Nr)`.
pub fn child_keymat(params: SaParams, sk_d: &[u8], ni: &[u8], nr: &[u8], len: usize) -> (r: Vec<u8>)
    requires
        len + 64 <= usize::MAX,
    ensures
        r@ == prf_plus_spec(prf_of(params.prf), sk_d@, ni@ + nr@, len as nat),
{
    let prf = params.prf();
    let seed = concat(ni, nr);
    prf.prf_plus(sk_d, seed.as_slice(), len)
}

/// Rekey a CHILD SA: `KEYMAT = prf+(SK_d(parent), g^ir | Ni | Nr)` (RFC 7296 §2.17).
pub fn child_keymat_rekey(params: SaParams, sk_d: &[u8], gir_new: &[u8], ni: &[u8], nr: &[u8], len: usize) -> (r: Vec<u8>)
    requires
        len + 64 <= usize::MAX,
    ensures
        r@ == prf_plus_spec(prf_of(params.prf), sk_d@, gir_new@ + ni@ + nr@, len as nat),
{
    let prf = params.prf();
    let mut base = concat(gir_new, ni);
    base.extend_from_slice(nr);
    assert(base@ =~= gir_new@ + ni@ + nr@);
    prf.prf_plus(sk_d, base.as_slice(), len)
}

} // verus!
