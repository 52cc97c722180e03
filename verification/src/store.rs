//! The certificate storage and index engine: an append-mostly, per-source log
//! of delivered certificates with a per-target secondary index, source-head
//! and checkpoint queries.

use vstd::prelude::*;

use crate::types::{
    cert_wf, contains_subnet, is_zero_bytes, zero_id_bytes, Certificate, CertificateId,
    CertificateView, SourceCheckpoint, SourceStreamPosition, SubnetId,
};

verus! {

/// The delivered certificates of one source subnet, in position order:
/// `certs[i]` sits at position `i + 1`; position 0 is the synthetic genesis.
pub struct SourceStream {
    pub subnet: SubnetId,
    pub certs: Vec<Certificate>,
}

/// One row of the per-target index: certificate `id` sits at `position` of
/// source stream `source` and is addressed to subnet `target`.
#[derive(Clone, Copy, Debug)]
pub struct TargetEntry {
    pub target: SubnetId,
    pub source: SubnetId,
    pub position: u64,
    pub id: CertificateId,
}

/// Whether a target index entry has exactly the given field values.
pub open spec fn entry_is(e: TargetEntry, t: Seq<u8>, s: Seq<u8>, pos: int, id: Seq<u8>) -> bool {
    &&& e.target@ == t
    &&& e.source@ == s
    &&& e.position == pos
    &&& e.id@ == id
}

/// Why a delivery could not be appended.
#[derive(Clone, Copy, Debug, PartialEq, Eq, Structural)]
pub enum StorageError {
    /// The certificate id is already stored; the write was a no-op.
    AlreadyExists,
    /// The certificate's `prev_id` does not match the current head of its
    /// source stream.
    UnexpectedPrev,
}

/// The multi-indexed log of delivered certificates.
pub struct IndexStore {
    /// One log per source subnet, created on first delivery.
    pub streams: Vec<SourceStream>,
    /// The per-target secondary index, in delivery order.
    pub target_entries: Vec<TargetEntry>,
}

impl SourceStream {
    /// Internal consistency of one source stream: non-empty, every
    /// certificate well-formed, produced by this subnet, and linked to its
    /// predecessor in the log.
    pub open spec fn wf(&self) -> bool {
        &&& self.certs@.len() > 0
        &&& forall|i: int| #![trigger self.certs@[i]]
            0 <= i < self.certs@.len() ==> {
                &&& cert_wf(self.certs@[i])
                &&& self.certs@[i].source_subnet_id@ == self.subnet@
                &&& (1 <= i ==> self.certs@[i].prev_id@ == self.certs@[i - 1].id@)
            }
    }
}

impl IndexStore {
    /// Streams belong to pairwise distinct subnets.
    pub open spec fn streams_distinct(&self) -> bool {
        forall|j1: int, j2: int|
            0 <= j1 < j2 < self.streams@.len() ==> self.streams@[j1].subnet@
                != self.streams@[j2].subnet@
    }

    /// Every stream is internally consistent.
    pub open spec fn streams_wf(&self) -> bool {
        forall|j: int| #![trigger self.streams@[j]]
            0 <= j < self.streams@.len() ==> self.streams@[j].wf()
    }

    /// No certificate id is stored twice, within or across streams.
    pub open spec fn ids_unique(&self) -> bool {
        forall|j1: int, i1: int, j2: int, i2: int|
            #![trigger self.streams@[j1].certs@[i1], self.streams@[j2].certs@[i2]]
            0 <= j1 < self.streams@.len() && 0 <= i1 < self.streams@[j1].certs@.len() && 0 <= j2
                < self.streams@.len() && 0 <= i2 < self.streams@[j2].certs@.len() && (j1 != j2 || i1
                != i2) ==> self.streams@[j1].certs@[i1].id@ != self.streams@[j2].certs@[i2].id@
    }

    /// Whether a stream for source subnet `s` exists.
    pub open spec fn has_source(&self, s: Seq<u8>) -> bool {
        exists|j: int| 0 <= j < self.streams@.len() && self.streams@[j].subnet@ == s
    }

    /// The index of the stream for source subnet `s`.
    pub open spec fn source_index(&self, s: Seq<u8>) -> int {
        choose|j: int| 0 <= j < self.streams@.len() && self.streams@[j].subnet@ == s
    }

    /// The stored log of source subnet `s`, empty when no stream exists.
    pub open spec fn stream_of(&self, s: Seq<u8>) -> Seq<Certificate> {
        if self.has_source(s) {
            self.streams@[self.source_index(s)].certs@
        } else {
            Seq::empty()
        }
    }

    /// How many certificates are stored for source subnet `s`; also the
    /// position of the stream's head.
    pub open spec fn stored_count(&self, s: Seq<u8>) -> nat {
        self.stream_of(s).len()
    }

    /// The certificate stored at `pos` of source stream `s` (positions run
    /// from 1 to `stored_count`).
    pub open spec fn cert_at(&self, s: Seq<u8>, pos: int) -> Certificate {
        self.stream_of(s)[pos - 1]
    }

    /// The id of the head of source stream `s`, or the zero id when the
    /// stream is empty or absent.
    pub open spec fn head_id(&self, s: Seq<u8>) -> Seq<u8> {
        if self.stored_count(s) > 0 {
            self.cert_at(s, self.stored_count(s) as int).id@
        } else {
            zero_id_bytes()
        }
    }

    /// Whether some stored certificate has id `id`.
    pub open spec fn contains_id(&self, id: Seq<u8>) -> bool {
        exists|j: int, i: int|
            0 <= j < self.streams@.len() && 0 <= i < self.streams@[j].certs@.len()
                && self.streams@[j].certs@[i].id@ == id
    }

    /// A target index entry is backed by the primary log: its certificate is
    /// stored at exactly that position of that source stream and is addressed
    /// to that target.
    pub open spec fn entry_matches(&self, e: TargetEntry) -> bool {
        &&& self.has_source(e.source@)
        &&& 1 <= e.position <= self.stored_count(e.source@)
        &&& self.cert_at(e.source@, e.position as int).id@ == e.id@
        &&& contains_subnet(
            self.cert_at(e.source@, e.position as int).target_subnets@,
            e.target@,
        )
    }

    /// Every target index entry is backed by the primary log.
    pub open spec fn targets_sound(&self) -> bool {
        forall|k: int| #![trigger self.target_entries@[k]]
            0 <= k < self.target_entries@.len() ==> self.entry_matches(self.target_entries@[k])
    }

    /// Whether some target index row has exactly the given field values.
    pub open spec fn has_entry(&self, t: Seq<u8>, s: Seq<u8>, pos: int, id: Seq<u8>) -> bool {
        exists|k: int|
            0 <= k < self.target_entries@.len() && entry_is(self.target_entries@[k], t, s, pos, id)
    }

    /// Every stored certificate has one target index entry per target subnet.
    pub open spec fn targets_complete(&self) -> bool {
        forall|j: int, i: int, ti: int|
            #![trigger self.streams@[j].certs@[i].target_subnets@[ti]]
            0 <= j < self.streams@.len() && 0 <= i < self.streams@[j].certs@.len() && 0 <= ti
                < self.streams@[j].certs@[i].target_subnets@.len() ==> self.has_entry(
                self.streams@[j].certs@[i].target_subnets@[ti]@,
                self.streams@[j].subnet@,
                i + 1,
                self.streams@[j].certs@[i].id@,
            )
    }

    /// Within one (target, source) pair, index entries appear in strictly
    /// increasing position order.
    pub open spec fn targets_ordered(&self) -> bool {
        forall|k1: int, k2: int|
            #![trigger self.target_entries@[k1], self.target_entries@[k2]]
            0 <= k1 < k2 < self.target_entries@.len() && self.target_entries@[k1].target@
                == self.target_entries@[k2].target@ && self.target_entries@[k1].source@
                == self.target_entries@[k2].source@ ==> self.target_entries@[k1].position
                < self.target_entries@[k2].position
    }

    /// Well-formedness of the whole store.
    pub open spec fn wf(&self) -> bool {
        &&& self.streams_distinct()
        &&& self.streams_wf()
        &&& self.ids_unique()
        &&& self.targets_sound()
        &&& self.targets_complete()
        &&& self.targets_ordered()
    }

    /// The store as a map from source subnet bytes to the stream's
    /// mathematical value.
    pub open spec fn streams_map(&self) -> Map<Seq<u8>, Seq<CertificateView>> {
        Map::new(
            |s: Seq<u8>| self.has_source(s),
            |s: Seq<u8>| self.stream_view(s),
        )
    }

    /// The mathematical value of source stream `s`.
    pub open spec fn stream_view(&self, s: Seq<u8>) -> Seq<CertificateView> {
        self.stream_of(s).map_values(|c: Certificate| c@)
    }

    /// An empty store.
    pub fn new() -> (r: IndexStore)
        ensures
            r.wf(),
            r.streams@.len() == 0,
            r.target_entries@.len() == 0,
            forall|s: Seq<u8>| !r.has_source(s),
            forall|id: Seq<u8>| !r.contains_id(id),
    {
        IndexStore { streams: Vec::new(), target_entries: Vec::new() }
    }

    /// With distinct streams, a stream's own index is the one `source_index`
    /// picks.
    pub proof fn lemma_stream_lookup(&self, j: int)
        requires
            self.streams_distinct(),
            0 <= j < self.streams@.len(),
        ensures
            self.has_source(self.streams@[j].subnet@),
            self.source_index(self.streams@[j].subnet@) == j,
            self.stream_of(self.streams@[j].subnet@) == self.streams@[j].certs@,
    {
        let s = self.streams@[j].subnet@;
        assert(self.has_source(s));
        let j2 = self.source_index(s);
        if j2 != j {
            if j < j2 {
                assert(self.streams@[j].subnet@ != self.streams@[j2].subnet@);
            } else {
                assert(self.streams@[j2].subnet@ != self.streams@[j].subnet@);
            }
        }
    }

    /// Finds the stream of subnet `s`, if one exists.
    pub(crate) fn find_stream(&self, s: &SubnetId) -> (r: Option<usize>)
        requires
            self.streams_distinct(),
        ensures
            match r {
                Some(j) => 0 <= j < self.streams@.len() && self.streams@[j as int].subnet@
                    == s@ && self.has_source(s@) && self.source_index(s@) == j,
                None => !self.has_source(s@),
            },
    {
        let mut j: usize = 0;
        while j < self.streams.len()
            invariant
                0 <= j <= self.streams@.len(),
                forall|k: int| 0 <= k < j ==> self.streams@[k].subnet@ != s@,
            decreases self.streams@.len() - j,
        {
            if self.streams[j].subnet.equals(s) {
                proof {
                    self.lemma_stream_lookup(j as int);
                }
                return Some(j);
            }
            j += 1;
        }
        None
    }

    /// Whether a certificate with id `id` is stored.
    pub fn contains_certificate(&self, id: &CertificateId) -> (r: bool)
        ensures
            r == self.contains_id(id@),
    {
        let mut j: usize = 0;
        while j < self.streams.len()
            invariant
                0 <= j <= self.streams@.len(),
                forall|j1: int, i1: int|
                    #![trigger self.streams@[j1].certs@[i1]]
                    0 <= j1 < j && 0 <= i1 < self.streams@[j1].certs@.len()
                        ==> self.streams@[j1].certs@[i1].id@ != id@,
            decreases self.streams@.len() - j,
        {
            let certs = &self.streams[j].certs;
            let mut i: usize = 0;
            while i < certs.len()
                invariant
                    0 <= i <= certs@.len(),
                    certs@ == self.streams@[j as int].certs@,
                    forall|i1: int| 0 <= i1 < i ==> certs@[i1].id@ != id@,
                decreases certs@.len() - i,
            {
                if certs[i].id.equals(id) {
                    return true;
                }
                i += 1;
            }
            j += 1;
        }
        false
    }

    /// Looks a stored certificate up by id.
    pub fn certificate_by_id(&self, id: &CertificateId) -> (r: Option<&Certificate>)
        requires
            self.wf(),
        ensures
            match r {
                Some(c) => self.contains_id(id@) && c.id@ == id@ && exists|j: int, i: int|
                    0 <= j < self.streams@.len() && 0 <= i < self.streams@[j].certs@.len()
                        && self.streams@[j].certs@[i] == *c,
                None => !self.contains_id(id@),
            },
    {
        let mut j: usize = 0;
        while j < self.streams.len()
            invariant
                0 <= j <= self.streams@.len(),
                forall|j1: int, i1: int|
                    #![trigger self.streams@[j1].certs@[i1]]
                    0 <= j1 < j && 0 <= i1 < self.streams@[j1].certs@.len()
                        ==> self.streams@[j1].certs@[i1].id@ != id@,
            decreases self.streams@.len() - j,
        {
            let certs = &self.streams[j].certs;
            let mut i: usize = 0;
            while i < certs.len()
                invariant
                    0 <= i <= certs@.len(),
                    certs@ == self.streams@[j as int].certs@,
                    forall|i1: int| 0 <= i1 < i ==> certs@[i1].id@ != id@,
                decreases certs@.len() - i,
            {
                if certs[i].id.equals(id) {
                    return Some(&certs[i]);
                }
                i += 1;
            }
            j += 1;
        }
        None
    }

    /// Returns the head certificate of source subnet `s` with its position,
    /// or, when no certificate is stored for `s`, a synthetic genesis
    /// certificate at position 0 whose id and `prev_id` are the zero value
    /// and whose other fields are defaulted from the subnet id.
    pub fn get_source_head(&self, s: &SubnetId) -> (r: (Certificate, u64))
        requires
            self.wf(),
            self.stored_count(s@) <= u64::MAX,
        ensures
            self.has_source(s@) ==> {
                &&& r.1 == self.stored_count(s@)
                &&& r.0@ == self.cert_at(s@, self.stored_count(s@) as int)@
                &&& r.0.id@ == self.head_id(s@)
            },
            !self.has_source(s@) ==> {
                &&& r.1 == 0
                &&& is_zero_bytes(r.0.id@)
                &&& is_zero_bytes(r.0.prev_id@)
                &&& r.0.source_subnet_id@ == s@
                &&& r.0.target_subnets@.len() == 0
                &&& is_zero_bytes(r.0.state_root@)
                &&& is_zero_bytes(r.0.tx_root_hash@)
                &&& r.0.verifier == 0
                &&& r.0.proof@.len() == 0
                &&& r.0.signature@.len() == 0
            },
    {
        match self.find_stream(s) {
            Some(j) => {
                let certs = &self.streams[j].certs;
                let n = certs.len();
                let head = certs[n - 1].duplicate();
                (head, n as u64)
            },
            None => {
                let genesis = Certificate {
                    prev_id: CertificateId::zero(),
                    source_subnet_id: *s,
                    state_root: [0u8; 32],
                    tx_root_hash: [0u8; 32],
                    target_subnets: Vec::new(),
                    verifier: 0,
                    id: CertificateId::zero(),
                    proof: Vec::new(),
                    signature: Vec::new(),
                };
                proof {
                    assert(genesis.state_root@ =~= zero_id_bytes());
                    assert(genesis.tx_root_hash@ =~= zero_id_bytes());
                }
                (genesis, 0)
            },
        }
    }
}

/// The rows that one delivery at position `pos` adds to the target index:
/// one per target subnet of the certificate.
pub open spec fn delivery_entries(cert: Certificate, pos: u64) -> Seq<TargetEntry> {
    Seq::new(
        cert.target_subnets@.len(),
        |ti: int| TargetEntry {
            target: cert.target_subnets@[ti],
            source: cert.source_subnet_id,
            position: pos,
            id: cert.id,
        },
    )
}

/// Taking views commutes with appending one certificate.
pub proof fn lemma_view_push(s: Seq<Certificate>, c: Certificate)
    ensures
        s.push(c).map_values(|x: Certificate| x@) =~= s.map_values(|x: Certificate| x@).push(c@),
{
}

impl IndexStore {
    /// What a successful delivery of `cert` at position `pos` leaves behind.
    pub open spec fn delivered_post(&self, pre: IndexStore, cert: Certificate, pos: u64) -> bool {
        &&& pos == pre.stored_count(cert.source_subnet_id@) + 1
        &&& self.streams_map() =~= pre.streams_map().insert(
            cert.source_subnet_id@,
            pre.stream_view(cert.source_subnet_id@).push(cert@),
        )
        &&& self.target_entries@ =~= pre.target_entries@ + delivery_entries(cert, pos)
        &&& forall|x: Seq<u8>| self.contains_id(x) == (pre.contains_id(x) || x == cert.id@)
        &&& self.has_source(cert.source_subnet_id@)
        &&& self.stored_count(cert.source_subnet_id@) == pos
        &&& self.head_id(cert.source_subnet_id@) == cert.id@
        &&& forall|s2: Seq<u8>|
            #![trigger self.stream_view(s2)]
            #![trigger self.has_source(s2)]
            s2 != cert.source_subnet_id@ ==> self.has_source(s2) == pre.has_source(s2)
                && self.stream_view(s2) == pre.stream_view(s2)
    }

    /// Appends `cert` to the existing stream `j` and indexes its targets.
    fn append_to_stream(&mut self, j: usize, cert: &Certificate) -> (pos: u64)
        requires
            old(self).wf(),
            cert_wf(*cert),
            0 <= j < old(self).streams@.len(),
            old(self).streams@[j as int].subnet@ == cert.source_subnet_id@,
            !old(self).contains_id(cert.id@),
            cert.prev_id@ == old(self).head_id(cert.source_subnet_id@),
            old(self).stored_count(cert.source_subnet_id@) < u64::MAX,
        ensures
            final(self).wf(),
            final(self).delivered_post(*old(self), *cert, pos),
    {
        let ghost pre = *old(self);
        let ghost source = cert.source_subnet_id@;
        proof {
            pre.lemma_stream_lookup(j as int);
        }
        let n = self.streams[j].certs.len();
        let pos: u64 = n as u64 + 1;
        let stored = cert.duplicate();
        let stream = &mut self.streams[j];
        stream.certs.push(stored);
        proof {
            assert(self.streams@.len() == pre.streams@.len());
            assert(forall|j2: int| #![trigger self.streams@[j2]]
                0 <= j2 < self.streams@.len() && j2 != j ==> self.streams@[j2]
                    == pre.streams@[j2]);
            assert(self.streams@[j as int].subnet == pre.streams@[j as int].subnet);
            assert(self.streams@[j as int].certs@ == pre.streams@[j as int].certs@.push(stored));
        }
        let ghost mid_streams = self.streams@;
        let mut ti: usize = 0;
        while ti < cert.target_subnets.len()
            invariant
                0 <= ti <= cert.target_subnets@.len(),
                self.streams@ == mid_streams,
                self.target_entries@ =~= pre.target_entries@ + delivery_entries(*cert, pos).take(
                    ti as int,
                ),
            decreases cert.target_subnets@.len() - ti,
        {
            self.target_entries.push(
                TargetEntry {
                    target: cert.target_subnets[ti],
                    source: cert.source_subnet_id,
                    position: pos,
                    id: cert.id,
                },
            );
            ti += 1;
            proof {
                assert(delivery_entries(*cert, pos).take(ti as int) =~= delivery_entries(
                    *cert,
                    pos,
                ).take(ti - 1).push(delivery_entries(*cert, pos)[ti - 1]));
            }
        }
        proof {
            assert(self.target_entries@ =~= pre.target_entries@ + delivery_entries(*cert, pos)) by {
                assert(delivery_entries(*cert, pos).take(ti as int) =~= delivery_entries(
                    *cert,
                    pos,
                ));
            }
            self.lemma_after_append(pre, *cert, j as int, stored, pos);
        }
        pos
    }

    /// The well-formedness and contract facts after an in-place append.
    proof fn lemma_after_append(
        &self,
        pre: IndexStore,
        cert: Certificate,
        j: int,
        stored: Certificate,
        pos: u64,
    )
        requires
            pre.wf(),
            cert_wf(cert),
            0 <= j < pre.streams@.len(),
            pre.streams@[j].subnet@ == cert.source_subnet_id@,
            !pre.contains_id(cert.id@),
            cert.prev_id@ == pre.head_id(cert.source_subnet_id@),
            pre.stored_count(cert.source_subnet_id@) < u64::MAX,
            stored@ == cert@,
            stored.prev_id == cert.prev_id,
            stored.source_subnet_id == cert.source_subnet_id,
            stored.target_subnets@ == cert.target_subnets@,
            stored.id == cert.id,
            pos == pre.streams@[j].certs@.len() + 1,
            self.streams@.len() == pre.streams@.len(),
            forall|j2: int| #![trigger self.streams@[j2]]
                0 <= j2 < self.streams@.len() && j2 != j ==> self.streams@[j2]
                    == pre.streams@[j2],
            self.streams@[j].subnet == pre.streams@[j].subnet,
            self.streams@[j].certs@ == pre.streams@[j].certs@.push(stored),
            self.target_entries@ == pre.target_entries@ + delivery_entries(cert, pos),
        ensures
            self.wf(),
            self.delivered_post(pre, cert, pos),
    {
        let source = cert.source_subnet_id@;
        pre.lemma_stream_lookup(j);
        assert(pre.stream_of(source) == pre.streams@[j].certs@);
        let oldcerts = pre.streams@[j].certs@;
        let n = oldcerts.len() as int;
        assert(cert_wf(stored));

        // The streams after the update.
        assert(self.streams@.len() == pre.streams@.len());
        assert(forall|j2: int| #![trigger self.streams@[j2]]
            0 <= j2 < self.streams@.len() && j2 != j ==> self.streams@[j2] == pre.streams@[j2]);
        assert(self.streams@[j].subnet@ == source);
        assert(self.streams@[j].certs@ == oldcerts.push(stored));
        assert(self.streams_distinct());
        self.lemma_stream_lookup(j);
        assert(self.stream_of(source) == oldcerts.push(stored));

        // Per-stream well-formedness.
        assert forall|j2: int| #![trigger self.streams@[j2]]
            0 <= j2 < self.streams@.len() implies self.streams@[j2].wf() by {
            if j2 == j {
                let st = self.streams@[j];
                assert forall|i: int| #![trigger st.certs@[i]]
                    0 <= i < st.certs@.len() implies {
                    &&& cert_wf(st.certs@[i])
                    &&& st.certs@[i].source_subnet_id@ == st.subnet@
                    &&& (1 <= i ==> st.certs@[i].prev_id@ == st.certs@[i - 1].id@)
                } by {
                    if i < n {
                        assert(st.certs@[i] == oldcerts[i]);
                        if 1 <= i {
                            assert(st.certs@[i - 1] == oldcerts[i - 1]);
                        }
                    } else {
                        assert(st.certs@[i] == stored);
                        if n > 0 {
                            assert(st.certs@[i - 1] == oldcerts[n - 1]);
                            assert(cert.prev_id@ == pre.head_id(source));
                        }
                    }
                }
            }
        }

        // Unique ids: the new certificate's id was not stored.
        assert forall|j2: int, i2: int|
            0 <= j2 < pre.streams@.len() && 0 <= i2 < pre.streams@[j2].certs@.len()
            implies pre.streams@[j2].certs@[i2].id@ != cert.id@ by {
            if pre.streams@[j2].certs@[i2].id@ == cert.id@ {
                assert(pre.contains_id(cert.id@));
            }
        }
        assert forall|j1: int, i1: int, j2: int, i2: int|
            #![trigger self.streams@[j1].certs@[i1], self.streams@[j2].certs@[i2]]
            0 <= j1 < self.streams@.len() && 0 <= i1 < self.streams@[j1].certs@.len() && 0 <= j2
                < self.streams@.len() && 0 <= i2 < self.streams@[j2].certs@.len() && (j1 != j2 || i1
                != i2) implies self.streams@[j1].certs@[i1].id@ != self.streams@[j2].certs@[i2].id@
        by {
            let a = self.streams@[j1].certs@[i1];
            let b = self.streams@[j2].certs@[i2];
            if j1 == j && i1 == n {
                assert(a == stored);
                assert(b == pre.streams@[j2].certs@[i2]);
            } else if j2 == j && i2 == n {
                assert(b == stored);
                assert(a == pre.streams@[j1].certs@[i1]);
            } else {
                assert(a == pre.streams@[j1].certs@[i1]);
                assert(b == pre.streams@[j2].certs@[i2]);
            }
        }

        // Streams of other sources are untouched.
        assert forall|s2: Seq<u8>| s2 != source implies self.has_source(s2) == pre.has_source(s2)
            && self.stream_of(s2) == pre.stream_of(s2) by {
            if pre.has_source(s2) {
                let j2 = pre.source_index(s2);
                pre.lemma_stream_lookup(j2);
                assert(j2 != j);
                assert(self.streams@[j2].subnet@ == s2);
                self.lemma_stream_lookup(j2);
            } else if self.has_source(s2) {
                let j2 = self.source_index(s2);
                assert(0 <= j2 < self.streams@.len() && self.streams@[j2].subnet@ == s2);
                assert(j2 != j);
                assert(pre.streams@[j2].subnet@ == s2);
                assert(pre.has_source(s2));
            }
        }

        // Soundness of the old and new target index rows.
        assert forall|k: int| #![trigger self.target_entries@[k]]
            0 <= k < self.target_entries@.len() implies self.entry_matches(
            self.target_entries@[k],
        ) by {
            if k < pre.target_entries@.len() {
                let e = pre.target_entries@[k];
                assert(pre.entry_matches(e));
                assert(self.target_entries@[k] == e);
                if e.source@ == source {
                    assert(self.stream_of(source)[e.position - 1] == oldcerts[e.position - 1]);
                } else {
                    assert(self.stream_of(e.source@) == pre.stream_of(e.source@));
                }
            } else {
                let ti = k - pre.target_entries@.len();
                let e = delivery_entries(cert, pos)[ti];
                assert(self.target_entries@[k] == e);
                assert(e.position == pos);
                assert(self.cert_at(source, pos as int) == stored);
                assert(contains_subnet(stored.target_subnets@, e.target@)) by {
                    assert(stored.target_subnets@[ti]@ == e.target@);
                }
            }
        }

        // Completeness: old rows stay valid; the new certificate's targets are
        // the rows just appended.
        assert forall|j2: int, i2: int, ti: int|
            #![trigger self.streams@[j2].certs@[i2].target_subnets@[ti]]
            0 <= j2 < self.streams@.len() && 0 <= i2 < self.streams@[j2].certs@.len() && 0 <= ti
                < self.streams@[j2].certs@[i2].target_subnets@.len() implies self.has_entry(
            self.streams@[j2].certs@[i2].target_subnets@[ti]@,
            self.streams@[j2].subnet@,
            i2 + 1,
            self.streams@[j2].certs@[i2].id@,
        ) by {
            if j2 == j && i2 == n {
                let k = pre.target_entries@.len() + ti;
                assert(self.target_entries@[k as int] == delivery_entries(cert, pos)[ti]);
                assert(entry_is(
                    self.target_entries@[k as int],
                    self.streams@[j2].certs@[i2].target_subnets@[ti]@,
                    self.streams@[j2].subnet@,
                    i2 + 1,
                    self.streams@[j2].certs@[i2].id@,
                ));
            } else {
                assert(self.streams@[j2].certs@[i2] == pre.streams@[j2].certs@[i2]);
                assert(pre.streams@[j2].certs@[i2].target_subnets@[ti]
                    == self.streams@[j2].certs@[i2].target_subnets@[ti]);
                assert(pre.has_entry(
                    pre.streams@[j2].certs@[i2].target_subnets@[ti]@,
                    pre.streams@[j2].subnet@,
                    i2 + 1,
                    pre.streams@[j2].certs@[i2].id@,
                ));
                let k = choose|k: int|
                    0 <= k < pre.target_entries@.len() && entry_is(
                        pre.target_entries@[k],
                        pre.streams@[j2].certs@[i2].target_subnets@[ti]@,
                        pre.streams@[j2].subnet@,
                        i2 + 1,
                        pre.streams@[j2].certs@[i2].id@,
                    );
                assert(self.target_entries@[k] == pre.target_entries@[k]);
                assert(entry_is(
                    self.target_entries@[k],
                    self.streams@[j2].certs@[i2].target_subnets@[ti]@,
                    self.streams@[j2].subnet@,
                    i2 + 1,
                    self.streams@[j2].certs@[i2].id@,
                ));
            }
        }

        // Order within one (target, source) pair.
        assert forall|k1: int, k2: int|
            #![trigger self.target_entries@[k1], self.target_entries@[k2]]
            0 <= k1 < k2 < self.target_entries@.len() && self.target_entries@[k1].target@
                == self.target_entries@[k2].target@ && self.target_entries@[k1].source@
                == self.target_entries@[k2].source@ implies self.target_entries@[k1].position
            < self.target_entries@[k2].position by {
            let m = pre.target_entries@.len() as int;
            if k2 < m {
                assert(self.target_entries@[k1] == pre.target_entries@[k1]);
                assert(self.target_entries@[k2] == pre.target_entries@[k2]);
            } else if k1 < m {
                let e1 = pre.target_entries@[k1];
                assert(self.target_entries@[k1] == e1);
                let e2 = delivery_entries(cert, pos)[k2 - m];
                assert(self.target_entries@[k2] == e2);
                assert(pre.entry_matches(e1));
                assert(e1.source@ == source ==> e1.position <= n);
            } else {
                let e1 = delivery_entries(cert, pos)[k1 - m];
                let e2 = delivery_entries(cert, pos)[k2 - m];
                assert(self.target_entries@[k1] == e1);
                assert(self.target_entries@[k2] == e2);
                assert(e1.target@ == cert.target_subnets@[k1 - m]@);
                assert(e2.target@ == cert.target_subnets@[k2 - m]@);
                assert(e1.target@ != e2.target@);
            }
        }

        // The map equation and the id membership change.
        lemma_view_push(oldcerts, stored);
        assert(self.stream_view(source) =~= pre.stream_view(source).push(cert@));
        assert(self.streams_map() =~= pre.streams_map().insert(
            source,
            pre.stream_view(source).push(cert@),
        )) by {
            assert(self.streams_map().dom() =~= pre.streams_map().insert(
                source,
                pre.stream_view(source).push(cert@),
            ).dom());
        }
        assert forall|x: Seq<u8>| self.contains_id(x) == (pre.contains_id(x) || x == cert.id@) by {
            if pre.contains_id(x) {
                let (j2, i2) = choose|j2: int, i2: int|
                    0 <= j2 < pre.streams@.len() && 0 <= i2 < pre.streams@[j2].certs@.len()
                        && pre.streams@[j2].certs@[i2].id@ == x;
                assert(self.streams@[j2].certs@[i2].id@ == x);
            }
            if x == cert.id@ {
                assert(self.streams@[j].certs@[n].id@ == x);
            }
            if self.contains_id(x) {
                let (j2, i2) = choose|j2: int, i2: int|
                    0 <= j2 < self.streams@.len() && 0 <= i2 < self.streams@[j2].certs@.len()
                        && self.streams@[j2].certs@[i2].id@ == x;
                if j2 == j && i2 == n {
                    assert(x == cert.id@);
                } else {
                    assert(pre.streams@[j2].certs@[i2].id@ == x);
                }
            }
        }
        assert(self.cert_at(source, pos as int) == stored);
    }
}

impl IndexStore {
    /// Opens a new stream for the certificate's source subnet and indexes it.
    fn create_stream(&mut self, cert: &Certificate) -> (pos: u64)
        requires
            old(self).wf(),
            cert_wf(*cert),
            !old(self).has_source(cert.source_subnet_id@),
            !old(self).contains_id(cert.id@),
        ensures
            final(self).wf(),
            final(self).delivered_post(*old(self), *cert, pos),
    {
        let ghost pre = *old(self);
        let ghost source = cert.source_subnet_id@;
        let stored = cert.duplicate();
        let mut certs: Vec<Certificate> = Vec::new();
        certs.push(stored);
        self.streams.push(SourceStream { subnet: cert.source_subnet_id, certs });
        let pos: u64 = 1;
        let ghost mid_streams = self.streams@;
        let mut ti: usize = 0;
        while ti < cert.target_subnets.len()
            invariant
                0 <= ti <= cert.target_subnets@.len(),
                self.streams@ == mid_streams,
                self.target_entries@ =~= pre.target_entries@ + delivery_entries(*cert, pos).take(
                    ti as int,
                ),
            decreases cert.target_subnets@.len() - ti,
        {
            self.target_entries.push(
                TargetEntry {
                    target: cert.target_subnets[ti],
                    source: cert.source_subnet_id,
                    position: pos,
                    id: cert.id,
                },
            );
            ti += 1;
            proof {
                assert(delivery_entries(*cert, pos).take(ti as int) =~= delivery_entries(
                    *cert,
                    pos,
                ).take(ti - 1).push(delivery_entries(*cert, pos)[ti - 1]));
            }
        }
        proof {
            assert(self.target_entries@ =~= pre.target_entries@ + delivery_entries(*cert, pos)) by {
                assert(delivery_entries(*cert, pos).take(ti as int) =~= delivery_entries(
                    *cert,
                    pos,
                ));
            }
            self.lemma_after_create(pre, *cert, stored);
        }
        pos
    }

    /// The well-formedness and contract facts after opening a new stream.
    proof fn lemma_after_create(&self, pre: IndexStore, cert: Certificate, stored: Certificate)
        requires
            pre.wf(),
            cert_wf(cert),
            !pre.has_source(cert.source_subnet_id@),
            !pre.contains_id(cert.id@),
            stored@ == cert@,
            stored.prev_id == cert.prev_id,
            stored.source_subnet_id == cert.source_subnet_id,
            stored.target_subnets@ == cert.target_subnets@,
            stored.id == cert.id,
            self.streams@.len() == pre.streams@.len() + 1,
            forall|j2: int| #![trigger self.streams@[j2]]
                0 <= j2 < pre.streams@.len() ==> self.streams@[j2] == pre.streams@[j2],
            self.streams@[pre.streams@.len() as int].subnet == cert.source_subnet_id,
            self.streams@[pre.streams@.len() as int].certs@ =~= seq![stored],
            self.target_entries@ == pre.target_entries@ + delivery_entries(cert, 1u64),
        ensures
            self.wf(),
            self.delivered_post(pre, cert, 1u64),
    {
        let source = cert.source_subnet_id@;
        let j = pre.streams@.len() as int;
        assert(cert_wf(stored));
        assert(pre.stored_count(source) == 0);

        // Distinctness: the new subnet had no stream.
        assert forall|j1: int, j2: int| 0 <= j1 < j2 < self.streams@.len() implies
            self.streams@[j1].subnet@ != self.streams@[j2].subnet@ by {
            if j2 == j {
                if self.streams@[j1].subnet@ == source {
                    assert(pre.streams@[j1].subnet@ == source);
                    assert(pre.has_source(source));
                }
            }
        }
        self.lemma_stream_lookup(j);
        assert(self.stream_of(source) =~= seq![stored]);

        // Per-stream well-formedness.
        assert forall|j2: int| #![trigger self.streams@[j2]]
            0 <= j2 < self.streams@.len() implies self.streams@[j2].wf() by {
            if j2 == j {
                let st = self.streams@[j];
                assert(st.certs@[0] == stored);
                assert(st.wf());
            }
        }

        // Unique ids.
        assert forall|j2: int, i2: int|
            0 <= j2 < pre.streams@.len() && 0 <= i2 < pre.streams@[j2].certs@.len()
            implies pre.streams@[j2].certs@[i2].id@ != cert.id@ by {
            if pre.streams@[j2].certs@[i2].id@ == cert.id@ {
                assert(pre.contains_id(cert.id@));
            }
        }
        assert forall|j1: int, i1: int, j2: int, i2: int|
            #![trigger self.streams@[j1].certs@[i1], self.streams@[j2].certs@[i2]]
            0 <= j1 < self.streams@.len() && 0 <= i1 < self.streams@[j1].certs@.len() && 0 <= j2
                < self.streams@.len() && 0 <= i2 < self.streams@[j2].certs@.len() && (j1 != j2 || i1
                != i2) implies self.streams@[j1].certs@[i1].id@ != self.streams@[j2].certs@[i2].id@
        by {
            if j1 == j {
                assert(self.streams@[j1].certs@[i1] == stored);
                assert(j2 != j);
                assert(self.streams@[j2].certs@[i2] == pre.streams@[j2].certs@[i2]);
            } else if j2 == j {
                assert(self.streams@[j2].certs@[i2] == stored);
                assert(self.streams@[j1].certs@[i1] == pre.streams@[j1].certs@[i1]);
            } else {
                assert(self.streams@[j1].certs@[i1] == pre.streams@[j1].certs@[i1]);
                assert(self.streams@[j2].certs@[i2] == pre.streams@[j2].certs@[i2]);
            }
        }

        // Streams of other sources are untouched.
        assert forall|s2: Seq<u8>| s2 != source implies self.has_source(s2) == pre.has_source(s2)
            && self.stream_of(s2) == pre.stream_of(s2) by {
            if pre.has_source(s2) {
                let j2 = pre.source_index(s2);
                pre.lemma_stream_lookup(j2);
                assert(self.streams@[j2].subnet@ == s2);
                self.lemma_stream_lookup(j2);
            } else if self.has_source(s2) {
                let j2 = self.source_index(s2);
                assert(0 <= j2 < self.streams@.len() && self.streams@[j2].subnet@ == s2);
                assert(j2 != j);
                assert(pre.streams@[j2].subnet@ == s2);
                assert(pre.has_source(s2));
            }
        }

        // Soundness of the old and new target index rows.
        assert forall|k: int| #![trigger self.target_entries@[k]]
            0 <= k < self.target_entries@.len() implies self.entry_matches(
            self.target_entries@[k],
        ) by {
            if k < pre.target_entries@.len() {
                let e = pre.target_entries@[k];
                assert(pre.entry_matches(e));
                assert(self.target_entries@[k] == e);
                assert(e.source@ != source);
                assert(self.stream_of(e.source@) == pre.stream_of(e.source@));
            } else {
                let ti = k - pre.target_entries@.len();
                let e = delivery_entries(cert, 1u64)[ti];
                assert(self.target_entries@[k] == e);
                assert(self.cert_at(source, 1int) == stored);
                assert(contains_subnet(stored.target_subnets@, e.target@)) by {
                    assert(stored.target_subnets@[ti]@ == e.target@);
                }
            }
        }

        // Completeness.
        assert forall|j2: int, i2: int, ti: int|
            #![trigger self.streams@[j2].certs@[i2].target_subnets@[ti]]
            0 <= j2 < self.streams@.len() && 0 <= i2 < self.streams@[j2].certs@.len() && 0 <= ti
                < self.streams@[j2].certs@[i2].target_subnets@.len() implies self.has_entry(
            self.streams@[j2].certs@[i2].target_subnets@[ti]@,
            self.streams@[j2].subnet@,
            i2 + 1,
            self.streams@[j2].certs@[i2].id@,
        ) by {
            if j2 == j {
                assert(i2 == 0);
                let k = pre.target_entries@.len() + ti;
                assert(self.target_entries@[k as int] == delivery_entries(cert, 1u64)[ti]);
                assert(entry_is(
                    self.target_entries@[k as int],
                    self.streams@[j2].certs@[i2].target_subnets@[ti]@,
                    self.streams@[j2].subnet@,
                    i2 + 1,
                    self.streams@[j2].certs@[i2].id@,
                ));
            } else {
                assert(self.streams@[j2].certs@[i2] == pre.streams@[j2].certs@[i2]);
                assert(pre.streams@[j2].certs@[i2].target_subnets@[ti]
                    == self.streams@[j2].certs@[i2].target_subnets@[ti]);
                assert(pre.has_entry(
                    pre.streams@[j2].certs@[i2].target_subnets@[ti]@,
                    pre.streams@[j2].subnet@,
                    i2 + 1,
                    pre.streams@[j2].certs@[i2].id@,
                ));
                let k = choose|k: int|
                    0 <= k < pre.target_entries@.len() && entry_is(
                        pre.target_entries@[k],
                        pre.streams@[j2].certs@[i2].target_subnets@[ti]@,
                        pre.streams@[j2].subnet@,
                        i2 + 1,
                        pre.streams@[j2].certs@[i2].id@,
                    );
                assert(self.target_entries@[k] == pre.target_entries@[k]);
                assert(entry_is(
                    self.target_entries@[k],
                    self.streams@[j2].certs@[i2].target_subnets@[ti]@,
                    self.streams@[j2].subnet@,
                    i2 + 1,
                    self.streams@[j2].certs@[i2].id@,
                ));
            }
        }

        // Order within one (target, source) pair.
        assert forall|k1: int, k2: int|
            #![trigger self.target_entries@[k1], self.target_entries@[k2]]
            0 <= k1 < k2 < self.target_entries@.len() && self.target_entries@[k1].target@
                == self.target_entries@[k2].target@ && self.target_entries@[k1].source@
                == self.target_entries@[k2].source@ implies self.target_entries@[k1].position
            < self.target_entries@[k2].position by {
            let m = pre.target_entries@.len() as int;
            if k2 < m {
                assert(self.target_entries@[k1] == pre.target_entries@[k1]);
                assert(self.target_entries@[k2] == pre.target_entries@[k2]);
            } else if k1 < m {
                let e1 = pre.target_entries@[k1];
                assert(self.target_entries@[k1] == e1);
                let e2 = delivery_entries(cert, 1u64)[k2 - m];
                assert(self.target_entries@[k2] == e2);
                assert(pre.entry_matches(e1));
                assert(e1.source@ != source);
                assert(e2.source@ == source);
            } else {
                let e1 = delivery_entries(cert, 1u64)[k1 - m];
                let e2 = delivery_entries(cert, 1u64)[k2 - m];
                assert(self.target_entries@[k1] == e1);
                assert(self.target_entries@[k2] == e2);
                assert(e1.target@ == cert.target_subnets@[k1 - m]@);
                assert(e2.target@ == cert.target_subnets@[k2 - m]@);
                assert(e1.target@ != e2.target@);
            }
        }

        // The map equation and the id membership change.
        assert(self.stream_view(source) =~= pre.stream_view(source).push(cert@));
        assert(self.streams_map() =~= pre.streams_map().insert(
            source,
            pre.stream_view(source).push(cert@),
        )) by {
            assert(self.streams_map().dom() =~= pre.streams_map().insert(
                source,
                pre.stream_view(source).push(cert@),
            ).dom());
        }
        assert forall|x: Seq<u8>| self.contains_id(x) == (pre.contains_id(x) || x == cert.id@) by {
            if pre.contains_id(x) {
                let (j2, i2) = choose|j2: int, i2: int|
                    0 <= j2 < pre.streams@.len() && 0 <= i2 < pre.streams@[j2].certs@.len()
                        && pre.streams@[j2].certs@[i2].id@ == x;
                assert(self.streams@[j2].certs@[i2].id@ == x);
            }
            if x == cert.id@ {
                assert(self.streams@[j].certs@[0].id@ == x);
            }
            if self.contains_id(x) {
                let (j2, i2) = choose|j2: int, i2: int|
                    0 <= j2 < self.streams@.len() && 0 <= i2 < self.streams@[j2].certs@.len()
                        && self.streams@[j2].certs@[i2].id@ == x;
                if j2 == j {
                    assert(x == cert.id@);
                } else {
                    assert(pre.streams@[j2].certs@[i2].id@ == x);
                }
            }
        }
        assert(self.cert_at(source, 1int) == stored);
    }

    /// Appends a delivered certificate to its source stream in one logical
    /// write: the primary log, the target index and the head all change
    /// together, or nothing changes.
    ///
    /// The position is `head.position + 1` when the stream exists, else 1,
    /// with the synthetic genesis occupying position 0. A certificate whose
    /// id is already stored is refused with `AlreadyExists`; one whose
    /// `prev_id` does not match the head of an existing stream is refused
    /// with `UnexpectedPrev`. On an empty history any `prev_id` is accepted,
    /// as the head there is the zero-id genesis.
    pub fn put_delivered(&mut self, cert: &Certificate) -> (r: Result<u64, StorageError>)
        requires
            old(self).wf(),
            cert_wf(*cert),
            old(self).stored_count(cert.source_subnet_id@) < u64::MAX,
        ensures
            final(self).wf(),
            (r is Ok) == (!old(self).contains_id(cert.id@) && (old(self).has_source(
                cert.source_subnet_id@,
            ) ==> cert.prev_id@ == old(self).head_id(cert.source_subnet_id@))),
            match r {
                Ok(pos) => final(self).delivered_post(*old(self), *cert, pos),
                Err(e) => *final(self) == *old(self) && match e {
                    StorageError::AlreadyExists => old(self).contains_id(cert.id@),
                    StorageError::UnexpectedPrev => !old(self).contains_id(cert.id@) && old(
                        self,
                    ).has_source(cert.source_subnet_id@) && cert.prev_id@ != old(self).head_id(
                        cert.source_subnet_id@,
                    ),
                },
            },
    {
        if self.contains_certificate(&cert.id) {
            return Err(StorageError::AlreadyExists);
        }
        match self.find_stream(&cert.source_subnet_id) {
            Some(j) => {
                let n = self.streams[j].certs.len();
                let head_matches = cert.prev_id.equals(&self.streams[j].certs[n - 1].id);
                if !head_matches {
                    return Err(StorageError::UnexpectedPrev);
                }
                Ok(self.append_to_stream(j, cert))
            },
            None => Ok(self.create_stream(cert)),
        }
    }
}

/// The views of a sequence of certificates.
pub open spec fn cert_views(s: Seq<Certificate>) -> Seq<CertificateView> {
    s.map_values(|c: Certificate| c@)
}

/// The predicate selecting target index rows of one (target, source) pair at
/// or after a position.
pub open spec fn row_pred(t: Seq<u8>, s: Seq<u8>, from: u64) -> spec_fn(TargetEntry) -> bool {
    |e: TargetEntry| e.target@ == t && e.source@ == s && e.position >= from
}

impl IndexStore {
    /// The certificates of source stream `s` strictly after position `pos`.
    pub open spec fn suffix_after(&self, s: Seq<u8>, pos: int) -> Seq<Certificate> {
        if 0 <= pos <= self.stream_of(s).len() {
            self.stream_of(s).skip(pos)
        } else {
            Seq::empty()
        }
    }

    /// The certificates a checkpoint resumes with: for each checkpoint entry
    /// in order, the entry's stream strictly after the entry's position.
    pub open spec fn replay_from(&self, entries: Seq<SourceStreamPosition>) -> Seq<Certificate>
        decreases entries.len(),
    {
        if entries.len() == 0 {
            Seq::empty()
        } else {
            self.replay_from(entries.drop_last()) + self.suffix_after(
                entries.last().subnet_id@,
                entries.last().position as int,
            )
        }
    }

    /// Forward scan from a checkpoint: yields up to `first` certificates, for
    /// each checkpoint entry in order the certificates of that source stream
    /// whose positions are strictly greater than the entry's position.
    pub fn get_certificates_per_subnet(&self, from: &SourceCheckpoint, first: usize) -> (r: Vec<
        Certificate,
    >)
        requires
            self.wf(),
        ensures
            ({
                let replay = self.replay_from(from.positions@);
                &&& r@.len() == if first <= replay.len() {
                    first as int
                } else {
                    replay.len() as int
                }
                &&& forall|i: int| 0 <= i < r@.len() ==> r@[i]@ == replay[i]@
            }),
    {
        let mut acc: Vec<Certificate> = Vec::new();
        let mut e: usize = 0;
        while e < from.positions.len()
            invariant
                0 <= e <= from.positions@.len(),
                acc@.len() == self.replay_from(from.positions@.take(e as int)).len(),
                forall|k: int|
                    0 <= k < acc@.len() ==> acc@[k]@ == self.replay_from(
                        from.positions@.take(e as int),
                    )[k]@,
            decreases from.positions@.len() - e,
        {
            let ghost base = self.replay_from(from.positions@.take(e as int));
            let entry = &from.positions[e];
            let ghost s = entry.subnet_id@;
            let ghost suffix = self.suffix_after(s, entry.position as int);
            match self.find_stream(&entry.subnet_id) {
                Some(j) => {
                    let len = self.streams[j].certs.len();
                    if entry.position < len as u64 {
                        let start = entry.position as usize;
                        let mut i: usize = start;
                        while i < len
                            invariant
                                start <= i <= len,
                                len == self.stream_of(s).len(),
                                0 <= e < from.positions@.len(),
                                s == from.positions@[e as int].subnet_id@,
                                start == from.positions@[e as int].position,
                                suffix == self.suffix_after(s, start as int),
                                acc@.len() == base.len() + (i - start),
                                forall|k: int| 0 <= k < base.len() ==> acc@[k]@ == base[k]@,
                                forall|k: int|
                                    base.len() <= k < acc@.len() ==> acc@[k]@ == suffix[k
                                        - base.len()]@,
                            decreases len - i,
                        {
                            let c = self.streams[j].certs[i].duplicate();
                            acc.push(c);
                            proof {
                                assert(suffix[i - start] == self.stream_of(s)[i as int]);
                            }
                            i += 1;
                        }
                    }
                },
                None => {
                    proof {
                        assert(suffix =~= Seq::<Certificate>::empty());
                    }
                },
            }
            e += 1;
            proof {
                assert(from.positions@.take(e as int).drop_last() =~= from.positions@.take(
                    e - 1,
                ));
                assert(from.positions@.take(e as int).last() == from.positions@[e - 1]);
                assert(self.replay_from(from.positions@.take(e as int)) == base + suffix);
            }
        }
        proof {
            assert(from.positions@.take(e as int) =~= from.positions@);
        }
        if acc.len() > first {
            acc.truncate(first);
        }
        acc
    }

    /// Forward scan of the target index with the fixed (target, source)
    /// prefix: yields up to `limit` rows with positions at or after
    /// `from_position`, in increasing position order.
    pub fn get_target_stream(
        &self,
        target: &SubnetId,
        source: &SubnetId,
        from_position: u64,
        limit: usize,
    ) -> (r: Vec<TargetEntry>)
        requires
            self.wf(),
        ensures
            ({
                let rows = self.target_entries@.filter(row_pred(target@, source@, from_position));
                r@ =~= rows.take(if limit <= rows.len() {
                    limit as int
                } else {
                    rows.len() as int
                })
            }),
    {
        let ghost pred = row_pred(target@, source@, from_position);
        let mut acc: Vec<TargetEntry> = Vec::new();
        let mut k: usize = 0;
        while k < self.target_entries.len()
            invariant
                0 <= k <= self.target_entries@.len(),
                acc@ =~= self.target_entries@.take(k as int).filter(pred),
            decreases self.target_entries@.len() - k,
        {
            let e = self.target_entries[k];
            let selected = e.target.equals(target) && e.source.equals(source) && e.position
                >= from_position;
            if selected {
                acc.push(e);
            }
            k += 1;
            proof {
                reveal(Seq::filter);
                assert(self.target_entries@.take(k as int).drop_last() =~= self.target_entries@
                    .take(k - 1));
                assert(self.target_entries@.take(k as int).last() == self.target_entries@[k - 1]);
                assert(pred(self.target_entries@[k - 1]) == selected);
            }
        }
        proof {
            assert(self.target_entries@.take(k as int) =~= self.target_entries@);
        }
        if acc.len() > limit {
            acc.truncate(limit);
        }
        proof {
            let rows = self.target_entries@.filter(pred);
            if limit >= rows.len() {
                assert(rows.take(rows.len() as int) =~= rows);
            }
        }
        acc
    }
}

impl IndexStore {
    /// Law: every stored certificate above the first position of its stream
    /// links to the certificate one position below it: that predecessor is
    /// stored, carries the certificate's `prev_id` as its id, belongs to the
    /// same source subnet, and sits at exactly the preceding position.
    ///
    /// The first certificate of a stream (position 1) is exempt: it was
    /// accepted over the synthetic zero-id genesis head, so its `prev_id` may
    /// name a certificate that is not stored.
    pub proof fn lemma_stored_chain(&self, s: Seq<u8>, pos: int)
        requires
            self.wf(),
            self.has_source(s),
            2 <= pos <= self.stored_count(s),
        ensures
            self.cert_at(s, pos - 1).id@ == self.cert_at(s, pos).prev_id@,
            self.cert_at(s, pos - 1).source_subnet_id@ == self.cert_at(s, pos).source_subnet_id@,
            self.contains_id(self.cert_at(s, pos).prev_id@),
    {
        let j = self.source_index(s);
        assert(self.streams@[j].wf());
        assert(self.streams@[j].certs@[pos - 1].prev_id@ == self.streams@[j].certs@[pos - 2].id@);
        assert(self.contains_id(self.cert_at(s, pos).prev_id@)) by {
            assert(self.streams@[j].certs@[pos - 2].id@ == self.cert_at(s, pos).prev_id@);
        }
    }

    /// Law: for a source subnet with stored certificates, the head is itself
    /// stored, its position `stored_count` is the maximum position of the
    /// stream, and no certificate at a lower position carries the head's id.
    pub proof fn lemma_source_head_is_max(&self, s: Seq<u8>)
        requires
            self.wf(),
            self.has_source(s),
        ensures
            self.stored_count(s) >= 1,
            self.head_id(s) == self.cert_at(s, self.stored_count(s) as int).id@,
            self.contains_id(self.head_id(s)),
            forall|p: int|
                1 <= p < self.stored_count(s) ==> self.cert_at(s, p).id@ != self.head_id(s),
    {
        let j = self.source_index(s);
        assert(self.streams@[j].wf());
        let n = self.stored_count(s) as int;
        assert(self.contains_id(self.head_id(s))) by {
            assert(self.streams@[j].certs@[n - 1].id@ == self.head_id(s));
        }
        assert forall|p: int| 1 <= p < self.stored_count(s) implies self.cert_at(s, p).id@
            != self.head_id(s) by {
            assert(self.streams@[j].certs@[p - 1].id@ != self.streams@[j].certs@[n - 1].id@);
        }
    }

    /// Law: every target index row `(t, s, pos) -> id` is backed by the
    /// primary log: the certificate stored at position `pos` of source
    /// stream `s` has id `id` and is addressed to target subnet `t`.
    pub proof fn lemma_target_entry_backed(&self, k: int)
        requires
            self.wf(),
            0 <= k < self.target_entries@.len(),
        ensures
            ({
                let e = self.target_entries@[k];
                &&& self.has_source(e.source@)
                &&& 1 <= e.position <= self.stored_count(e.source@)
                &&& self.cert_at(e.source@, e.position as int).id@ == e.id@
                &&& contains_subnet(
                    self.cert_at(e.source@, e.position as int).target_subnets@,
                    e.target@,
                )
            }),
    {
        assert(self.entry_matches(self.target_entries@[k]));
    }
}

} // verus!
