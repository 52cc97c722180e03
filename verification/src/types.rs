//! Core data model: subnet and certificate identifiers, certificates, and
//! stream positions.

use vstd::prelude::*;

verus! {

/// A 32-byte subnet identifier with dense byte equality.
#[derive(Clone, Copy, Debug, PartialEq, Eq, Hash)]
pub struct SubnetId(pub [u8; 32]);

/// A 32-byte content-derived certificate identifier. The all-zero value is
/// reserved for the synthetic genesis certificate.
#[derive(Clone, Copy, Debug, PartialEq, Eq, Hash)]
pub struct CertificateId(pub [u8; 32]);

impl View for SubnetId {
    type V = Seq<u8>;

    open spec fn view(&self) -> Seq<u8> {
        self.0@
    }
}

impl View for CertificateId {
    type V = Seq<u8>;

    open spec fn view(&self) -> Seq<u8> {
        self.0@
    }
}

/// The byte sequence of the zero (genesis) identifier.
pub open spec fn zero_id_bytes() -> Seq<u8> {
    Seq::new(32, |i: int| 0u8)
}

/// Whether an identifier's bytes are all zero.
pub open spec fn is_zero_bytes(s: Seq<u8>) -> bool {
    s =~= zero_id_bytes()
}

/// Compares two 32-byte arrays for equality.
fn bytes32_eq(a: &[u8; 32], b: &[u8; 32]) -> (r: bool)
    ensures
        r == (a@ == b@),
{
    let mut i: usize = 0;
    while i < 32
        invariant
            0 <= i <= 32,
            forall|k: int| 0 <= k < i ==> a@[k] == b@[k],
        decreases 32 - i,
    {
        if a[i] != b[i] {
            assert(a@ != b@);
            return false;
        }
        i += 1;
    }
    proof {
        assert(a@ =~= b@);
    }
    true
}

/// Checks that every byte of a 32-byte array is zero.
fn bytes32_is_zero(a: &[u8; 32]) -> (r: bool)
    ensures
        r == is_zero_bytes(a@),
{
    let mut i: usize = 0;
    while i < 32
        invariant
            0 <= i <= 32,
            forall|k: int| 0 <= k < i ==> a@[k] == 0u8,
        decreases 32 - i,
    {
        if a[i] != 0 {
            assert(!is_zero_bytes(a@));
            return false;
        }
        i += 1;
    }
    proof {
        assert(a@ =~= zero_id_bytes());
    }
    true
}

impl SubnetId {
    /// Byte equality.
    pub fn equals(&self, other: &SubnetId) -> (r: bool)
        ensures
            r == (self@ == other@),
    {
        bytes32_eq(&self.0, &other.0)
    }
}

impl CertificateId {
    /// Byte equality.
    pub fn equals(&self, other: &CertificateId) -> (r: bool)
        ensures
            r == (self@ == other@),
    {
        bytes32_eq(&self.0, &other.0)
    }

    /// The zero identifier, used for the synthetic genesis certificate and as
    /// the `prev_id` of a stream's first certificate.
    pub fn zero() -> (r: CertificateId)
        ensures
            is_zero_bytes(r@),
    {
        let r = CertificateId([0u8; 32]);
        proof {
            assert(r@ =~= zero_id_bytes());
        }
        r
    }

    /// Whether this identifier is the zero value.
    pub fn is_zero(&self) -> (r: bool)
        ensures
            r == is_zero_bytes(self@),
    {
        bytes32_is_zero(&self.0)
    }
}

/// Copies a vector of `Copy` elements.
pub fn copy_vec<T: Copy>(v: &Vec<T>) -> (r: Vec<T>)
    ensures
        r@ == v@,
{
    let mut r: Vec<T> = Vec::new();
    let mut i: usize = 0;
    while i < v.len()
        invariant
            0 <= i <= v.len(),
            r@ =~= v@.subrange(0, i as int),
        decreases v.len() - i,
    {
        r.push(v[i]);
        i += 1;
    }
    proof {
        assert(r@ =~= v@);
    }
    r
}

/// The unit of exchange: a cross-subnet message, delivered exactly once per
/// node by the broadcast and appended to its source subnet's stream.
#[derive(Debug)]
#[verifier::ext_equal]
pub struct Certificate {
    /// Identifier of the predecessor certificate on the same source subnet,
    /// or the zero value for the first certificate of a stream.
    pub prev_id: CertificateId,
    /// The subnet that produced this certificate.
    pub source_subnet_id: SubnetId,
    /// State root after the certified batch (opaque here).
    pub state_root: [u8; 32],
    /// Transaction root of the certified batch (opaque here).
    pub tx_root_hash: [u8; 32],
    /// The subnets this certificate is addressed to, treated as a set.
    pub target_subnets: Vec<SubnetId>,
    /// Tag of the proof scheme that certifies this certificate.
    pub verifier: u32,
    /// Content-derived identifier; never the zero value for a real certificate.
    pub id: CertificateId,
    /// Opaque proof bytes.
    pub proof: Vec<u8>,
    /// Opaque threshold signature bytes.
    pub signature: Vec<u8>,
}

/// The mathematical value of a certificate: every field as a plain sequence
/// or integer.
#[verifier::ext_equal]
pub ghost struct CertificateView {
    pub prev_id: Seq<u8>,
    pub source_subnet_id: Seq<u8>,
    pub state_root: Seq<u8>,
    pub tx_root_hash: Seq<u8>,
    pub target_subnets: Seq<Seq<u8>>,
    pub verifier: u32,
    pub id: Seq<u8>,
    pub proof: Seq<u8>,
    pub signature: Seq<u8>,
}

impl View for Certificate {
    type V = CertificateView;

    open spec fn view(&self) -> CertificateView {
        CertificateView {
            prev_id: self.prev_id@,
            source_subnet_id: self.source_subnet_id@,
            state_root: self.state_root@,
            tx_root_hash: self.tx_root_hash@,
            target_subnets: Seq::new(
                self.target_subnets@.len(),
                |i: int| self.target_subnets@[i]@,
            ),
            verifier: self.verifier,
            id: self.id@,
            proof: self.proof@,
            signature: self.signature@,
        }
    }
}

/// Whether `s` occurs among the subnet ids `ts`.
pub open spec fn contains_subnet(ts: Seq<SubnetId>, s: Seq<u8>) -> bool {
    exists|i: int| 0 <= i < ts.len() && ts[i]@ == s
}

/// Whether the subnet ids `ts` are pairwise distinct.
pub open spec fn distinct_subnets(ts: Seq<SubnetId>) -> bool {
    forall|i: int, j: int| 0 <= i < j < ts.len() ==> ts[i]@ != ts[j]@
}

/// Whether `v` is the mathematical value of `c` after ingest: every field as
/// given, with the target subnets collapsed to a duplicate-free set with the
/// same members.
pub open spec fn is_normalization_of(v: CertificateView, c: Certificate) -> bool {
    &&& v.prev_id == c.prev_id@
    &&& v.source_subnet_id == c.source_subnet_id@
    &&& v.state_root == c.state_root@
    &&& v.tx_root_hash == c.tx_root_hash@
    &&& v.verifier == c.verifier
    &&& v.id == c.id@
    &&& v.proof == c.proof@
    &&& v.signature == c.signature@
    &&& forall|i: int, j: int|
        0 <= i < j < v.target_subnets.len() ==> v.target_subnets[i] != v.target_subnets[j]
    &&& forall|t: Seq<u8>|
        #[trigger] v.target_subnets.contains(t) == contains_subnet(c.target_subnets@, t)
}

/// Field invariants of a certificate accepted for broadcast and storage:
/// a non-zero id, a source subnet that is not among the targets, and target
/// subnets with set semantics (no duplicates).
pub open spec fn cert_wf(c: Certificate) -> bool {
    &&& !is_zero_bytes(c.id@)
    &&& !contains_subnet(c.target_subnets@, c.source_subnet_id@)
    &&& distinct_subnets(c.target_subnets@)
}

impl Certificate {
    /// A field-for-field copy with the same mathematical value.
    pub fn duplicate(&self) -> (r: Certificate)
        ensures
            r@ == self@,
            r.prev_id == self.prev_id,
            r.source_subnet_id == self.source_subnet_id,
            r.state_root == self.state_root,
            r.tx_root_hash == self.tx_root_hash,
            r.target_subnets@ == self.target_subnets@,
            r.verifier == self.verifier,
            r.id == self.id,
            r.proof@ == self.proof@,
            r.signature@ == self.signature@,
    {
        let r = Certificate {
            prev_id: self.prev_id,
            source_subnet_id: self.source_subnet_id,
            state_root: self.state_root,
            tx_root_hash: self.tx_root_hash,
            target_subnets: copy_vec(&self.target_subnets),
            verifier: self.verifier,
            id: self.id,
            proof: copy_vec(&self.proof),
            signature: copy_vec(&self.signature),
        };
        proof {
            assert(r@ =~= self@);
        }
        r
    }
}

/// Whether `v` holds a subnet id with the bytes of `s`.
pub fn vec_contains_subnet(v: &Vec<SubnetId>, s: &SubnetId) -> (r: bool)
    ensures
        r == contains_subnet(v@, s@),
{
    let mut i: usize = 0;
    while i < v.len()
        invariant
            0 <= i <= v.len(),
            forall|k: int| 0 <= k < i ==> v@[k]@ != s@,
        decreases v.len() - i,
    {
        if v[i].equals(s) {
            return true;
        }
        i += 1;
    }
    false
}

/// How membership among subnet ids changes when one id is appended.
pub proof fn lemma_contains_push(ts: Seq<SubnetId>, x: SubnetId, s: Seq<u8>)
    ensures
        contains_subnet(ts.push(x), s) == (contains_subnet(ts, s) || x@ == s),
{
    if contains_subnet(ts, s) {
        let k = choose|k: int| 0 <= k < ts.len() && ts[k]@ == s;
        assert(ts.push(x)[k]@ == s);
    }
    if x@ == s {
        assert(ts.push(x)[ts.len() as int]@ == s);
    }
    if contains_subnet(ts.push(x), s) {
        let k = choose|k: int| 0 <= k < ts.push(x).len() && ts.push(x)[k]@ == s;
        if k < ts.len() {
            assert(ts[k]@ == s);
        }
    }
}

/// Keeps the first occurrence of each subnet id, collapsing duplicates.
pub fn dedup_subnets(v: &Vec<SubnetId>) -> (r: Vec<SubnetId>)
    ensures
        distinct_subnets(r@),
        forall|s: Seq<u8>| contains_subnet(r@, s) <==> contains_subnet(v@, s),
{
    let mut r: Vec<SubnetId> = Vec::new();
    let mut i: usize = 0;
    while i < v.len()
        invariant
            0 <= i <= v.len(),
            distinct_subnets(r@),
            forall|k: int| #![trigger r@[k]]
                0 <= k < r@.len() ==> contains_subnet(v@, r@[k]@),
            forall|m: int| #![trigger v@[m]]
                0 <= m < i ==> contains_subnet(r@, v@[m]@),
        decreases v.len() - i,
    {
        let ghost prev = r@;
        let x = v[i];
        let present = vec_contains_subnet(&r, &x);
        if !present {
            r.push(x);
        }
        i += 1;
        proof {
            if !present {
                assert(r@ == prev.push(x));
                assert(contains_subnet(v@, r@[prev.len() as int]@)) by {
                    assert(v@[i - 1]@ == x@);
                }
                assert forall|m: int| 0 <= m < i implies contains_subnet(r@, v@[m]@) by {
                    lemma_contains_push(prev, x, v@[m]@);
                }
            } else {
                assert forall|m: int| 0 <= m < i implies contains_subnet(r@, v@[m]@) by {
                    if m == i - 1 {
                        assert(contains_subnet(r@, x@));
                    }
                }
            }
        }
    }
    assert forall|s: Seq<u8>| contains_subnet(r@, s) implies contains_subnet(v@, s) by {
        let k = choose|k: int| 0 <= k < r@.len() && r@[k]@ == s;
        assert(contains_subnet(v@, r@[k]@));
    }
    assert forall|s: Seq<u8>| contains_subnet(v@, s) implies contains_subnet(r@, s) by {
        let m = choose|m: int| 0 <= m < v@.len() && v@[m]@ == s;
        assert(contains_subnet(r@, v@[m]@));
    }
    r
}

/// A point in a source subnet's delivery stream.
#[derive(Clone, Copy, Debug)]
pub struct SourceStreamPosition {
    pub subnet_id: SubnetId,
    pub certificate_id: CertificateId,
    pub position: u64,
}

/// From where a caller wishes to resume reading, per source stream.
pub struct SourceCheckpoint {
    pub positions: Vec<SourceStreamPosition>,
}

/// The target subnets a watcher is interested in, with the per-source
/// positions from which to resume.
pub struct TargetCheckpoint {
    pub target_subnet_ids: Vec<SubnetId>,
    pub positions: Vec<SourceStreamPosition>,
}

/// The error returned to a caller that hands over malformed input.
#[derive(Clone, Copy, Debug, PartialEq, Eq, Structural)]
pub enum InvalidInput {
    /// The certificate id is the reserved zero value.
    ZeroCertificateId,
    /// The source subnet occurs among the target subnets.
    SourceAmongTargets,
    /// A subnet id string does not start with `0x`.
    MissingHexPrefix,
    /// A subnet id string does not hold exactly 64 hex digits after `0x`.
    BadIdLength,
    /// A subnet id string holds a character that is not a hex digit.
    InvalidHexCharacter,
}

/// Validates the field invariants of a submitted certificate and collapses
/// duplicate target subnets, as ingest demands set semantics on them.
///
/// Returns the normalized certificate exactly when the id is non-zero and the
/// source subnet is not among the targets.
pub fn validate_certificate(c: &Certificate) -> (r: Result<Certificate, InvalidInput>)
    ensures
        r is Ok <==> !is_zero_bytes(c.id@) && !contains_subnet(
            c.target_subnets@,
            c.source_subnet_id@,
        ),
        match r {
            Ok(v) => {
                &&& cert_wf(v)
                &&& v.prev_id == c.prev_id
                &&& v.source_subnet_id == c.source_subnet_id
                &&& v.state_root == c.state_root
                &&& v.tx_root_hash == c.tx_root_hash
                &&& v.verifier == c.verifier
                &&& v.id == c.id
                &&& v.proof@ == c.proof@
                &&& v.signature@ == c.signature@
                &&& distinct_subnets(v.target_subnets@)
                &&& forall|s: Seq<u8>|
                    contains_subnet(v.target_subnets@, s) <==> contains_subnet(
                        c.target_subnets@,
                        s,
                    )
            },
            Err(e) => e == (if is_zero_bytes(c.id@) {
                InvalidInput::ZeroCertificateId
            } else {
                InvalidInput::SourceAmongTargets
            }),
        },
{
    if c.id.is_zero() {
        return Err(InvalidInput::ZeroCertificateId);
    }
    if vec_contains_subnet(&c.target_subnets, &c.source_subnet_id) {
        return Err(InvalidInput::SourceAmongTargets);
    }
    let targets = dedup_subnets(&c.target_subnets);
    Ok(Certificate {
        prev_id: c.prev_id,
        source_subnet_id: c.source_subnet_id,
        state_root: c.state_root,
        tx_root_hash: c.tx_root_hash,
        target_subnets: targets,
        verifier: c.verifier,
        id: c.id,
        proof: copy_vec(&c.proof),
        signature: copy_vec(&c.signature),
    })
}

} // verus!
