//! IKEv2 SA proposal / transform model and negotiation (RFC 7296 §3.3).

use vstd::prelude::*;
use crate::ipsec::error::Error;
use crate::ipsec::types::{DhGroup, EncrId, IntegId, PrfId, ProtocolId, TransformType};

verus! {

/// A single transform within a proposal.
#[derive(Debug, Clone, Copy, PartialEq, Eq, Structural)]
pub struct Transform {
    /// The transform type.
    pub transform_type: TransformType,
    /// The transform id within its type.
    pub transform_id: u16,
    /// AES key length in bytes (for `TransformType::Encr` only).
    pub key_len: Option<usize>,
}

impl Transform {
    /// A transform with no key length attribute.
    pub fn new(transform_type: TransformType, transform_id: u16) -> (t: Transform)
        ensures
            t == (Transform { transform_type, transform_id, key_len: None }),
    {
        Transform { transform_type, transform_id, key_len: None }
    }

    /// The transform with the given key length (in bytes).
    pub fn with_key(self, key_len_bytes: usize) -> (t: Transform)
        ensures
            t == (Transform { key_len: Some(key_len_bytes), ..self }),
    {
        let mut t = self;
        t.key_len = Some(key_len_bytes);
        t
    }

    /// The encryption algorithm, if this is a known encryption transform.
    pub fn encr(&self) -> (r: Option<EncrId>)
        ensures
            self.transform_type == TransformType::Encr && EncrId::is_code(self.transform_id) <==> r is Some,
            r matches Some(e) ==> e.code() == self.transform_id,
    {
        if self.transform_type == TransformType::Encr {
            EncrId::from_u16(self.transform_id)
        } else {
            None
        }
    }

    /// The PRF, if this is a known PRF transform.
    pub fn prf(&self) -> (r: Option<PrfId>)
        ensures
            self.transform_type == TransformType::Prf && PrfId::is_code(self.transform_id) <==> r is Some,
            r matches Some(p) ==> p.code() == self.transform_id,
    {
        if self.transform_type == TransformType::Prf {
            PrfId::from_u16(self.transform_id)
        } else {
            None
        }
    }

    /// The integrity algorithm, if this is a known integrity transform.
    pub fn integ(&self) -> (r: Option<IntegId>)
        ensures
            self.transform_type == TransformType::Integ && IntegId::is_code(self.transform_id) <==> r is Some,
            r matches Some(i) ==> i.code() == self.transform_id,
    {
        if self.transform_type == TransformType::Integ {
            IntegId::from_u16(self.transform_id)
        } else {
            None
        }
    }

    /// The Diffie-Hellman group, if this is a known DH transform.
    pub fn dh(&self) -> (r: Option<DhGroup>)
        ensures
            self.transform_type == TransformType::Dh && DhGroup::is_code(self.transform_id) <==> r is Some,
            r matches Some(g) ==> g.code() == self.transform_id,
    {
        if self.transform_type == TransformType::Dh {
            DhGroup::from_u16(self.transform_id)
        } else {
            None
        }
    }
}

proof fn lemma_encr_code_injective(a: EncrId, b: EncrId)
    requires
        a.code() == b.code(),
    ensures
        a == b,
{
}

/// A single proposal (one protocol).
#[derive(Debug, Clone, PartialEq, Eq)]
pub struct Proposal {
    /// The proposal number.
    pub proposal_num: u8,
    /// The protocol the proposal is for.
    pub protocol: ProtocolId,
    /// The sending entity's SPI (empty for the initial IKE SA).
    pub spi: Vec<u8>,
    /// The transforms offered.
    pub transforms: Vec<Transform>,
}

/// The first transform of the list with type `t`.
pub open spec fn find_type(ts: Seq<Transform>, t: TransformType) -> Option<Transform>
    decreases ts.len(),
{
    if ts.len() == 0 {
        None
    } else if ts[0].transform_type == t {
        Some(ts[0])
    } else {
        find_type(ts.drop_first(), t)
    }
}

/// The offered transforms agree with the policy's on transform type `t`:
/// both have one, with the same id (and, for encryption, the same key
/// length).
pub open spec fn agrees_on(offer: Seq<Transform>, policy: Seq<Transform>, t: TransformType) -> bool {
    match (find_type(offer, t), find_type(policy, t)) {
        (Some(x), Some(y)) => x.transform_id == y.transform_id && (t == TransformType::Encr ==> x.key_len
            == y.key_len),
        _ => false,
    }
}

/// The transform types a proposal for protocol `p` must carry (RFC 7296
/// §3.3.3): encryption, PRF, integrity and Diffie-Hellman for IKE;
/// encryption and integrity for ESP; integrity for AH.
pub open spec fn required_type(p: ProtocolId, t: TransformType) -> bool {
    match p {
        ProtocolId::Ike => t == TransformType::Encr || t == TransformType::Prf || t == TransformType::Integ || t
            == TransformType::Dh,
        ProtocolId::Esp => t == TransformType::Encr || t == TransformType::Integ,
        ProtocolId::Ah => t == TransformType::Integ,
    }
}

/// A proposal for protocol `p` is acceptable under a policy proposal: they
/// agree on every transform type the protocol requires.
pub open spec fn compatible(p: ProtocolId, offer: Seq<Transform>, policy: Seq<Transform>) -> bool {
    &&& required_type(p, TransformType::Encr) ==> agrees_on(offer, policy, TransformType::Encr)
    &&& required_type(p, TransformType::Prf) ==> agrees_on(offer, policy, TransformType::Prf)
    &&& required_type(p, TransformType::Integ) ==> agrees_on(offer, policy, TransformType::Integ)
    &&& required_type(p, TransformType::Dh) ==> agrees_on(offer, policy, TransformType::Dh)
}

/// The transform present in `o`, as a list of zero or one.
pub open spec fn opt_seq(o: Option<Transform>) -> Seq<Transform> {
    match o {
        Some(x) => seq![x],
        None => Seq::empty(),
    }
}

/// The transforms carried into the chosen proposal: the first of each type,
/// in the order encryption, PRF, integrity, DH, ESN.
pub open spec fn chosen_transforms(ts: Seq<Transform>) -> Seq<Transform> {
    opt_seq(find_type(ts, TransformType::Encr)) + opt_seq(find_type(ts, TransformType::Prf)) + opt_seq(
        find_type(ts, TransformType::Integ),
    ) + opt_seq(find_type(ts, TransformType::Dh)) + opt_seq(find_type(ts, TransformType::Esn))
}

fn find_transform(ts: &Vec<Transform>, t: TransformType) -> (r: Option<Transform>)
    ensures
        r == find_type(ts@, t),
{
    let mut i: usize = 0;
    assert(ts@.skip(0) =~= ts@);
    while i < ts.len()
        invariant
            i <= ts@.len(),
            find_type(ts@, t) == find_type(ts@.skip(i as int), t),
        decreases ts.len() - i,
    {
        proof {
            assert(ts@.skip(i as int).drop_first() =~= ts@.skip(i + 1));
            assert(ts@.skip(i as int)[0] == ts@[i as int]);
        }
        if ts[i].transform_type == t {
            return Some(ts[i]);
        }
        i = i + 1;
    }
    assert(ts@.skip(i as int).len() == 0);
    None
}

impl Proposal {
    /// A proposal numbered 1 with an empty SPI.
    pub fn new(protocol: ProtocolId, transforms: Vec<Transform>) -> (p: Proposal)
        ensures
            p.proposal_num == 1,
            p.protocol == protocol,
            p.spi@.len() == 0,
            p.transforms@ == transforms@,
    {
        Proposal { proposal_num: 1, protocol, spi: Vec::new(), transforms }
    }

    fn agrees(&self, policy: &Proposal, t: TransformType) -> (r: bool)
        ensures
            r == agrees_on(self.transforms@, policy.transforms@, t),
    {
        match (find_transform(&self.transforms, t), find_transform(&policy.transforms, t)) {
            (Some(x), Some(y)) => {
                if x.transform_id != y.transform_id {
                    return false;
                }
                if t == TransformType::Encr && x.key_len != y.key_len {
                    return false;
                }
                true
            },
            _ => false,
        }
    }

    /// True if this proposal is acceptable given a policy proposal of the same
    /// protocol (every transform type the protocol requires has a matching id,
    /// and AES key lengths agree).
    fn compatible(&self, policy: &Proposal) -> (r: bool)
        ensures
            r == compatible(self.protocol, self.transforms@, policy.transforms@),
    {
        match self.protocol {
            ProtocolId::Ike => self.agrees(policy, TransformType::Encr) && self.agrees(policy, TransformType::Prf)
                && self.agrees(policy, TransformType::Integ) && self.agrees(policy, TransformType::Dh),
            ProtocolId::Esp => self.agrees(policy, TransformType::Encr) && self.agrees(policy, TransformType::Integ),
            ProtocolId::Ah => self.agrees(policy, TransformType::Integ),
        }
    }
}

/// An SA payload: a list of proposals.
#[derive(Debug, Clone, PartialEq, Eq)]
pub struct SaPayload {
    /// The proposals, in order of preference.
    pub proposals: Vec<Proposal>,
}

/// Some policy proposal of the same protocol accepts `p`.
pub open spec fn acceptable(p: Proposal, policy: Seq<Proposal>) -> bool {
    exists|j: int|
        0 <= j < policy.len() && (#[trigger] policy[j]).protocol == p.protocol && compatible(
            p.protocol,
            p.transforms@,
            policy[j].transforms@,
        )
}

/// The first offered proposal at or after `i` that the policy accepts.
pub open spec fn first_acceptable(offer: Seq<Proposal>, policy: Seq<Proposal>, i: int) -> Option<int>
    decreases offer.len() - i,
{
    if i < 0 || i >= offer.len() {
        None
    } else if acceptable(offer[i], policy) {
        Some(i)
    } else {
        first_acceptable(offer, policy, i + 1)
    }
}

/// `r` is the SA payload answering with the single proposal `p`: number 1,
/// `p`'s protocol, no SPI, and the chosen transforms of `p`.
pub open spec fn is_chosen(r: SaPayload, p: Proposal) -> bool {
    &&& r.proposals@.len() == 1
    &&& r.proposals@[0].proposal_num == 1
    &&& r.proposals@[0].protocol == p.protocol
    &&& r.proposals@[0].spi@.len() == 0
    &&& r.proposals@[0].transforms@ == chosen_transforms(p.transforms@)
}

fn push_found(out: &mut Vec<Transform>, ts: &Vec<Transform>, t: TransformType)
    ensures
        final(out)@ == old(out)@ + opt_seq(find_type(ts@, t)),
{
    match find_transform(ts, t) {
        Some(x) => {
            out.push(x);
            assert(final(out)@ =~= old(out)@ + opt_seq(find_type(ts@, t)));
        },
        None => {
            assert(final(out)@ =~= old(out)@ + opt_seq(find_type(ts@, t)));
        },
    }
}

fn chosen_proposal(offer: &Proposal) -> (r: SaPayload)
    ensures
        is_chosen(r, *offer),
{
    let mut transforms: Vec<Transform> = Vec::new();
    push_found(&mut transforms, &offer.transforms, TransformType::Encr);
    push_found(&mut transforms, &offer.transforms, TransformType::Prf);
    push_found(&mut transforms, &offer.transforms, TransformType::Integ);
    push_found(&mut transforms, &offer.transforms, TransformType::Dh);
    push_found(&mut transforms, &offer.transforms, TransformType::Esn);
    assert(transforms@ =~= chosen_transforms(offer.transforms@));
    let mut proposals: Vec<Proposal> = Vec::new();
    proposals.push(Proposal { proposal_num: 1, protocol: offer.protocol, spi: Vec::new(), transforms });
    SaPayload { proposals }
}

impl SaPayload {
    /// Select a single proposal from `self` (the initiator's offer) that is
    /// compatible with `policy` (the responder's accepted transforms).
    pub fn select(&self, policy: &SaPayload) -> (r: Result<SaPayload, Error>)
        ensures
            match first_acceptable(self.proposals@, policy.proposals@, 0) {
                Some(i) => r matches Ok(sa) && is_chosen(sa, self.proposals@[i]),
                None => r == Err::<SaPayload, Error>(Error::NoProposalChosen),
            },
    {
        let mut i: usize = 0;
        while i < self.proposals.len()
            invariant
                i <= self.proposals@.len(),
                first_acceptable(self.proposals@, policy.proposals@, 0) == first_acceptable(
                    self.proposals@,
                    policy.proposals@,
                    i as int,
                ),
            decreases self.proposals.len() - i,
        {
            let prop = &self.proposals[i];
            let mut j: usize = 0;
            while j < policy.proposals.len()
                invariant
                    j <= policy.proposals@.len(),
                    i < self.proposals@.len(),
                    prop == self.proposals@[i as int],
                    first_acceptable(self.proposals@, policy.proposals@, 0) == first_acceptable(
                        self.proposals@,
                        policy.proposals@,
                        i as int,
                    ),
                    forall|k: int|
                        0 <= k < j ==> !((#[trigger] policy.proposals@[k]).protocol == prop.protocol && compatible(
                            prop.protocol,
                            prop.transforms@,
                            policy.proposals@[k].transforms@,
                        )),
                decreases policy.proposals.len() - j,
            {
                let pp = &policy.proposals[j];
                if pp.protocol == prop.protocol && prop.compatible(pp) {
                    assert(acceptable(*prop, policy.proposals@));
                    return Ok(chosen_proposal(prop));
                }
                j = j + 1;
            }
            assert(!acceptable(*prop, policy.proposals@));
            i = i + 1;
        }
        Err(Error::NoProposalChosen)
    }

    /// Convenience: the single IKE proposal's transforms.
    pub fn ike_transforms(&self) -> (r: Option<&[Transform]>)
        ensures
            match r {
                Some(ts) => exists|i: int|
                    0 <= i < self.proposals@.len() && (#[trigger] self.proposals@[i]).protocol == ProtocolId::Ike
                        && ts@ == self.proposals@[i].transforms@ && forall|k: int|
                        0 <= k < i ==> (#[trigger] self.proposals@[k]).protocol != ProtocolId::Ike,
                None => forall|k: int|
                    0 <= k < self.proposals@.len() ==> (#[trigger] self.proposals@[k]).protocol != ProtocolId::Ike,
            },
    {
        let mut i: usize = 0;
        while i < self.proposals.len()
            invariant
                i <= self.proposals@.len(),
                forall|k: int| 0 <= k < i ==> (#[trigger] self.proposals@[k]).protocol != ProtocolId::Ike,
            decreases self.proposals.len() - i,
        {
            if self.proposals[i].protocol == ProtocolId::Ike {
                return Some(self.proposals[i].transforms.as_slice());
            }
            i = i + 1;
        }
        None
    }
}

/// The default IKE transforms: AES-CBC-128 (16-octet key), PRF HMAC-SHA256,
/// HMAC-SHA256-128, Curve25519, ESN none.
pub open spec fn default_ike_transforms() -> Seq<Transform> {
    seq![
        Transform { transform_type: TransformType::Encr, transform_id: 12, key_len: Some(16) },
        Transform { transform_type: TransformType::Prf, transform_id: 2, key_len: None },
        Transform { transform_type: TransformType::Integ, transform_id: 12, key_len: None },
        Transform { transform_type: TransformType::Dh, transform_id: 31, key_len: None },
        Transform { transform_type: TransformType::Esn, transform_id: 0, key_len: None },
    ]
}

/// The default ESP transforms: AES-CBC-128 (16-octet key), HMAC-SHA256-128,
/// ESN none.
pub open spec fn default_esp_transforms() -> Seq<Transform> {
    seq![
        Transform { transform_type: TransformType::Encr, transform_id: 12, key_len: Some(16) },
        Transform { transform_type: TransformType::Integ, transform_id: 12, key_len: None },
        Transform { transform_type: TransformType::Esn, transform_id: 0, key_len: None },
    ]
}

/// Build the default IKE SA proposal used by this implementation:
/// AES-CBC-128, PRF=HMAC-SHA256, HMAC-SHA256-128, Curve25519, ESN=NONE.
pub fn default_ike_proposal() -> (p: Proposal)
    ensures
        p.proposal_num == 1,
        p.protocol == ProtocolId::Ike,
        p.spi@.len() == 0,
        p.transforms@ == default_ike_transforms(),
{
    let mut ts: Vec<Transform> = Vec::new();
    ts.push(Transform::new(TransformType::Encr, EncrId::AesCbc128.to_u16()).with_key(16));
    ts.push(Transform::new(TransformType::Prf, PrfId::HmacSha256.to_u16()));
    ts.push(Transform::new(TransformType::Integ, IntegId::HmacSha256_128.to_u16()));
    ts.push(Transform::new(TransformType::Dh, DhGroup::Curve25519.to_u16()));
    ts.push(Transform::new(TransformType::Esn, 0));
    assert(ts@ =~= default_ike_transforms());
    Proposal::new(ProtocolId::Ike, ts)
}

/// Build a default CHILD SA proposal for ESP: AES-CBC-128, HMAC-SHA256-128,
/// ESN=NONE.
pub fn default_esp_proposal(spi: &[u8]) -> (p: Proposal)
    ensures
        p.proposal_num == 1,
        p.protocol == ProtocolId::Esp,
        p.spi@ == spi@,
        p.transforms@ == default_esp_transforms(),
{
    let mut ts: Vec<Transform> = Vec::new();
    ts.push(Transform::new(TransformType::Encr, EncrId::AesCbc128.to_u16()).with_key(16));
    ts.push(Transform::new(TransformType::Integ, IntegId::HmacSha256_128.to_u16()));
    ts.push(Transform::new(TransformType::Esn, 0));
    assert(ts@ =~= default_esp_transforms());
    Proposal { proposal_num: 1, protocol: ProtocolId::Esp, spi: vstd::slice::slice_to_vec(spi), transforms: ts }
}

/// Build the default IKE SA proposal with an explicit 8-byte IKE SPI (used for
/// IKE SA rekeying, where the new SA has a freshly chosen initiator SPI).
pub fn ike_proposal_with_spi(spi: &[u8]) -> (p: Proposal)
    ensures
        p.proposal_num == 1,
        p.protocol == ProtocolId::Ike,
        p.spi@ == spi@,
        p.transforms@ == default_ike_transforms(),
{
    let mut p = default_ike_proposal();
    p.spi = vstd::slice::slice_to_vec(spi);
    p
}

/// Build a default CHILD SA (ESP) proposal with an explicit 4-byte SPI (used
/// for CHILD SA rekeying).
pub fn esp_proposal_with_spi(spi: &[u8]) -> (p: Proposal)
    ensures
        p.proposal_num == 1,
        p.protocol == ProtocolId::Esp,
        p.spi@ == spi@,
        p.transforms@ == default_esp_transforms(),
{
    default_esp_proposal(spi)
}

/// The key length of the proposal's encryption transform (0 when it has
/// none, or an unknown one).
pub open spec fn encr_keymat(ts: Seq<Transform>) -> nat {
    match find_type(ts, TransformType::Encr) {
        Some(t) => if EncrId::is_code(t.transform_id) {
            (choose|e: EncrId| e.code() == t.transform_id).spec_key_len() as nat
        } else {
            0
        },
        None => 0,
    }
}

/// The key length of the proposal's integrity transform (0 when it has none,
/// or an unknown one).
pub open spec fn integ_keymat(ts: Seq<Transform>) -> nat {
    match find_type(ts, TransformType::Integ) {
        Some(t) => if IntegId::is_code(t.transform_id) {
            (choose|i: IntegId| i.code() == t.transform_id).spec_key_len() as nat
        } else {
            0
        },
        None => 0,
    }
}

proof fn lemma_integ_code_injective(a: IntegId, b: IntegId)
    requires
        a.code() == b.code(),
    ensures
        a == b,
{
}

/// The number of keying-material bytes (`KEYMAT`) required by a CHILD SA
/// proposal: the encryption key length plus the integrity key length (in
/// bytes). AEAD CHILD SAs would add a 4-byte salt (not used by the default
/// ESP proposal).
pub fn child_keymat_len(prop: &Proposal) -> (n: usize)
    ensures
        n == encr_keymat(prop.transforms@) + integ_keymat(prop.transforms@),
{
    let encr: usize = match find_transform(&prop.transforms, TransformType::Encr) {
        Some(t) => match EncrId::from_u16(t.transform_id) {
            Some(e) => {
                proof {
                    lemma_encr_code_injective(e, choose|e2: EncrId| e2.code() == t.transform_id);
                }
                e.key_len()
            },
            None => 0,
        },
        None => 0,
    };
    let integ: usize = match find_transform(&prop.transforms, TransformType::Integ) {
        Some(t) => match IntegId::from_u16(t.transform_id) {
            Some(i) => {
                proof {
                    lemma_integ_code_injective(i, choose|i2: IntegId| i2.code() == t.transform_id);
                }
                i.key_len()
            },
            None => 0,
        },
        None => 0,
    };
    encr + integ
}

/// A transform found for type `t` has type `t`.
proof fn lemma_find_type_type(ts: Seq<Transform>, t: TransformType)
    ensures
        find_type(ts, t) matches Some(x) ==> x.transform_type == t,
    decreases ts.len(),
{
    if ts.len() > 0 && ts[0].transform_type != t {
        lemma_find_type_type(ts.drop_first(), t);
    }
}

/// The first transform of type `t` in `a + b`: the first in `a`, else the
/// first in `b`.
proof fn lemma_find_type_concat(a: Seq<Transform>, b: Seq<Transform>, t: TransformType)
    ensures
        find_type(a + b, t) == match find_type(a, t) {
            Some(x) => Some(x),
            None => find_type(b, t),
        },
    decreases a.len(),
{
    if a.len() == 0 {
        assert(a + b =~= b);
    } else {
        assert((a + b)[0] == a[0]);
        assert((a + b).drop_first() =~= a.drop_first() + b);
        lemma_find_type_concat(a.drop_first(), b, t);
    }
}

/// The transform `opt_seq(find_type(ts, u))` offers for type `t`.
proof fn lemma_find_in_opt(ts: Seq<Transform>, u: TransformType, t: TransformType)
    ensures
        find_type(opt_seq(find_type(ts, u)), t) == if u == t {
            find_type(ts, t)
        } else {
            None::<Transform>
        },
{
    lemma_find_type_type(ts, u);
    match find_type(ts, u) {
        Some(x) => {
            let sx = seq![x];
            assert(sx[0] == x);
            assert(sx.drop_first() =~= Seq::<Transform>::empty());
            assert(find_type(sx.drop_first(), t) is None);
            assert(opt_seq(find_type(ts, u)) == sx);
        },
        None => {
            assert(find_type(Seq::<Transform>::empty(), t) is None);
        },
    }
}

/// The chosen transforms carry, for every type, the first transform of that
/// type among those offered.
pub proof fn lemma_find_chosen(ts: Seq<Transform>, t: TransformType)
    ensures
        find_type(chosen_transforms(ts), t) == find_type(ts, t),
{
    let e = opt_seq(find_type(ts, TransformType::Encr));
    let p = opt_seq(find_type(ts, TransformType::Prf));
    let g = opt_seq(find_type(ts, TransformType::Integ));
    let d = opt_seq(find_type(ts, TransformType::Dh));
    let n = opt_seq(find_type(ts, TransformType::Esn));
    lemma_find_in_opt(ts, TransformType::Encr, t);
    lemma_find_in_opt(ts, TransformType::Prf, t);
    lemma_find_in_opt(ts, TransformType::Integ, t);
    lemma_find_in_opt(ts, TransformType::Dh, t);
    lemma_find_in_opt(ts, TransformType::Esn, t);
    lemma_find_type_concat(e + p + g + d, n, t);
    lemma_find_type_concat(e + p + g, d, t);
    lemma_find_type_concat(e + p, g, t);
    lemma_find_type_concat(e, p, t);
}

proof fn lemma_first_acceptable_is(offer: Seq<Proposal>, policy: Seq<Proposal>, i: int)
    ensures
        first_acceptable(offer, policy, i) matches Some(k) ==> 0 <= k < offer.len() && acceptable(offer[k], policy),
    decreases offer.len() - i,
{
    if 0 <= i < offer.len() && !acceptable(offer[i], policy) {
        lemma_first_acceptable_is(offer, policy, i + 1);
    }
}

/// When `select` answers with a proposal, the policy holds a proposal of the
/// same protocol that agrees with it on every transform type the protocol
/// requires: the same transform ids, and for encryption the same key length.
pub proof fn lemma_selected_matches_policy(offer: Seq<Proposal>, policy: Seq<Proposal>, sa: SaPayload)
    requires
        first_acceptable(offer, policy, 0) matches Some(i) && is_chosen(sa, offer[i]),
    ensures
        exists|j: int|
            #![trigger policy[j]]
            0 <= j < policy.len() && policy[j].protocol == sa.proposals@[0].protocol && forall|t: TransformType|
                required_type(sa.proposals@[0].protocol, t) ==> match (
                    find_type(sa.proposals@[0].transforms@, t),
                    find_type(policy[j].transforms@, t),
                ) {
                    (Some(a), Some(b)) => a.transform_id == b.transform_id && (t == TransformType::Encr
                        ==> a.key_len == b.key_len),
                    _ => false,
                },
{
    lemma_first_acceptable_is(offer, policy, 0);
    let i = first_acceptable(offer, policy, 0)->Some_0;
    let p = offer[i];
    let j = choose|j: int|
        0 <= j < policy.len() && (#[trigger] policy[j]).protocol == p.protocol && compatible(
            p.protocol,
            p.transforms@,
            policy[j].transforms@,
        );
    assert forall|t: TransformType| required_type(sa.proposals@[0].protocol, t) implies match (
        find_type(sa.proposals@[0].transforms@, t),
        find_type(policy[j].transforms@, t),
    ) {
        (Some(a), Some(b)) => a.transform_id == b.transform_id && (t == TransformType::Encr ==> a.key_len
            == b.key_len),
        _ => false,
    } by {
        lemma_find_chosen(p.transforms@, t);
        assert(agrees_on(p.transforms@, policy[j].transforms@, t));
    }
}

proof fn lemma_first_acceptable_none(offer: Seq<Proposal>, policy: Seq<Proposal>, i: int)
    requires
        0 <= i,
    ensures
        first_acceptable(offer, policy, i) is None ==> forall|k: int| i <= k < offer.len() ==> !acceptable(
            #[trigger] offer[k],
            policy,
        ),
        first_acceptable(offer, policy, i) matches Some(q) ==> forall|k: int| i <= k < q ==> !acceptable(
            #[trigger] offer[k],
            policy,
        ),
    decreases offer.len() - i,
{
    if i < offer.len() && !acceptable(offer[i], policy) {
        lemma_first_acceptable_none(offer, policy, i + 1);
    }
}

proof fn lemma_find_type_in(ts: Seq<Transform>, t: TransformType)
    ensures
        find_type(ts, t) matches Some(x) ==> ts.contains(x),
    decreases ts.len(),
{
    if ts.len() > 0 && ts[0].transform_type != t {
        lemma_find_type_in(ts.drop_first(), t);
        if find_type(ts.drop_first(), t) is Some {
            let x = find_type(ts.drop_first(), t)->Some_0;
            let j = choose|j: int| 0 <= j < ts.drop_first().len() && ts.drop_first()[j] == x;
            assert(ts[j + 1] == x);
        }
    } else if ts.len() > 0 {
        assert(ts[0] == ts[0]);
    }
}

/// `select` refuses only when no offered proposal is acceptable under the
/// policy; when it answers, it answers with the first acceptable one, and
/// every transform it returns is one of that proposal's, at most one of each
/// type.
pub proof fn lemma_select_first_acceptable(offer: Seq<Proposal>, policy: Seq<Proposal>, sa: SaPayload)
    ensures
        first_acceptable(offer, policy, 0) is None ==> forall|k: int| 0 <= k < offer.len() ==> !acceptable(
            #[trigger] offer[k],
            policy,
        ),
        match first_acceptable(offer, policy, 0) {
            Some(i) => is_chosen(sa, offer[i]) ==> (acceptable(offer[i], policy)
            && (forall|k: int| 0 <= k < i ==> !acceptable(#[trigger] offer[k], policy)) && (forall|j: int|
            0 <= j < sa.proposals@[0].transforms@.len() ==> offer[i].transforms@.contains(
                #[trigger] sa.proposals@[0].transforms@[j],
            )) && (forall|j: int, l: int|
            0 <= j < l < sa.proposals@[0].transforms@.len() ==> (#[trigger] sa.proposals@[0].transforms@[j]).transform_type
                != (#[trigger] sa.proposals@[0].transforms@[l]).transform_type)),
            None => true,
        },
{
    lemma_first_acceptable_none(offer, policy, 0);
    lemma_first_acceptable_is(offer, policy, 0);
    if first_acceptable(offer, policy, 0) is Some {
        let i = first_acceptable(offer, policy, 0)->Some_0;
        if is_chosen(sa, offer[i]) {
            let ts = offer[i].transforms@;
            let e = opt_seq(find_type(ts, TransformType::Encr));
            let p = opt_seq(find_type(ts, TransformType::Prf));
            let g = opt_seq(find_type(ts, TransformType::Integ));
            let d = opt_seq(find_type(ts, TransformType::Dh));
            let n = opt_seq(find_type(ts, TransformType::Esn));
            let ch = chosen_transforms(ts);
            assert(ch == e + p + g + d + n);
            lemma_find_type_in(ts, TransformType::Encr);
            lemma_find_type_in(ts, TransformType::Prf);
            lemma_find_type_in(ts, TransformType::Integ);
            lemma_find_type_in(ts, TransformType::Dh);
            lemma_find_type_in(ts, TransformType::Esn);
            lemma_find_type_type(ts, TransformType::Encr);
            lemma_find_type_type(ts, TransformType::Prf);
            lemma_find_type_type(ts, TransformType::Integ);
            lemma_find_type_type(ts, TransformType::Dh);
            lemma_find_type_type(ts, TransformType::Esn);
            // Each part holds at most one transform, of its own type, from `ts`;
            // the parts come in the order Encr, Prf, Integ, Dh, Esn.
            let rank = |t: TransformType| -> int {
                match t {
                    TransformType::Encr => 0int,
                    TransformType::Prf => 1int,
                    TransformType::Integ => 2int,
                    TransformType::Dh => 3int,
                    TransformType::Esn => 4int,
                }
            };
            assert forall|j: int| 0 <= j < ch.len() implies ts.contains(#[trigger] ch[j]) && (j < e.len() ==> rank(
                ch[j].transform_type,
            ) == 0) && (e.len() <= j < e.len() + p.len() ==> rank(ch[j].transform_type) == 1) && (e.len() + p.len()
                <= j < e.len() + p.len() + g.len() ==> rank(ch[j].transform_type) == 2) && (e.len() + p.len() + g.len()
                <= j < e.len() + p.len() + g.len() + d.len() ==> rank(ch[j].transform_type) == 3) && (e.len() + p.len()
                + g.len() + d.len() <= j ==> rank(ch[j].transform_type) == 4) by {
            }
            assert forall|j: int, l: int| 0 <= j < l < ch.len() implies (#[trigger] ch[j]).transform_type
                != (#[trigger] ch[l]).transform_type by {
                assert(ts.contains(ch[j]) && ts.contains(ch[l]));
            }
        }
    }
}

} // verus!
