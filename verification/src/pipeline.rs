//! The delivery pipeline: commits delivered certificates to storage and
//! converts arrival order into causal commit order per source subnet. A
//! certificate whose predecessor is not yet the head of its stream is parked
//! in a pending bucket and released when the predecessor lands.

use vstd::prelude::*;

use crate::store::{IndexStore, StorageError};
use crate::types::{cert_wf, Certificate};

verus! {

/// What became of one certificate handed to the pipeline.
#[derive(Clone, Copy, Debug, PartialEq, Eq, Structural)]
pub enum DeliveryOutcome {
    /// Appended to its source stream at this position; parked successors may
    /// have been released behind it.
    Delivered { position: u64 },
    /// The certificate id was already stored or already parked; nothing
    /// changed (re-delivery counts as success).
    AlreadyDelivered,
    /// The predecessor is not the current head; the certificate waits in the
    /// pending bucket.
    Parked,
}

/// Whether some parked certificate has id `id`.
pub open spec fn parked_contains_id(parked: Seq<Certificate>, id: Seq<u8>) -> bool {
    exists|k: int| 0 <= k < parked.len() && parked[k].id@ == id
}

/// Whether the store would accept `p` right now: its stream exists and its
/// `prev_id` is the stream's head (and a position is still free).
pub open spec fn releasable(store: IndexStore, p: Certificate) -> bool {
    &&& store.has_source(p.source_subnet_id@)
    &&& p.prev_id@ == store.head_id(p.source_subnet_id@)
    &&& store.stored_count(p.source_subnet_id@) < u64::MAX
}

/// Storage plus the pending bucket of certificates that arrived before their
/// predecessor.
pub struct DeliveryPipeline {
    pub store: IndexStore,
    pub parked: Vec<Certificate>,
}

impl DeliveryPipeline {
    /// Well-formedness: a consistent store, well-formed parked certificates
    /// with pairwise distinct ids, none of them stored, and no parked
    /// certificate that could be committed right away.
    pub open spec fn wf(&self) -> bool {
        &&& self.store.wf()
        &&& forall|k: int| #![trigger self.parked@[k]]
            0 <= k < self.parked@.len() ==> cert_wf(self.parked@[k]) && !self.store.contains_id(
                self.parked@[k].id@,
            ) && !releasable(self.store, self.parked@[k])
        &&& forall|k1: int, k2: int|
            0 <= k1 < k2 < self.parked@.len() ==> self.parked@[k1].id@ != self.parked@[k2].id@
    }

    /// An empty pipeline over an empty store.
    pub fn new() -> (r: DeliveryPipeline)
        ensures
            r.wf(),
            r.store.streams@.len() == 0,
            r.parked@.len() == 0,
            forall|id: Seq<u8>| !r.store.contains_id(id),
    {
        DeliveryPipeline { store: IndexStore::new(), parked: Vec::new() }
    }

    /// Whether `id` is stored or parked here.
    pub open spec fn knows_id(&self, id: Seq<u8>) -> bool {
        self.store.contains_id(id) || parked_contains_id(self.parked@, id)
    }

    /// Whether a certificate with id `id` is stored or parked.
    pub fn knows_certificate(&self, id: &crate::types::CertificateId) -> (r: bool)
        ensures
            r == self.knows_id(id@),
    {
        if self.store.contains_certificate(id) {
            return true;
        }
        let mut k: usize = 0;
        while k < self.parked.len()
            invariant
                0 <= k <= self.parked@.len(),
                forall|k1: int| 0 <= k1 < k ==> self.parked@[k1].id@ != id@,
            decreases self.parked@.len() - k,
        {
            if self.parked[k].id.equals(id) {
                return true;
            }
            k += 1;
        }
        false
    }

    /// Finds a parked certificate the store would accept now.
    fn find_releasable(&self) -> (r: Option<usize>)
        requires
            self.store.wf(),
        ensures
            match r {
                Some(k) => 0 <= k < self.parked@.len() && releasable(
                    self.store,
                    self.parked@[k as int],
                ),
                None => forall|k: int|
                    0 <= k < self.parked@.len() ==> !releasable(self.store, self.parked@[k]),
            },
    {
        let mut k: usize = 0;
        while k < self.parked.len()
            invariant
                0 <= k <= self.parked@.len(),
                forall|k1: int| 0 <= k1 < k ==> !releasable(self.store, self.parked@[k1]),
            decreases self.parked@.len() - k,
        {
            let p = &self.parked[k];
            match self.store.find_stream(&p.source_subnet_id) {
                Some(j) => {
                    let certs = &self.store.streams[j].certs;
                    let n = certs.len();
                    proof {
                        assert(self.store.streams@[j as int].wf());
                    }
                    if (n as u64) < u64::MAX && p.prev_id.equals(&certs[n - 1].id) {
                        return Some(k);
                    }
                },
                None => {},
            }
            k += 1;
        }
        None
    }

    /// Commits one delivered certificate. A certificate whose id is already
    /// stored or parked changes nothing and counts as success. One whose
    /// `prev_id` does not match its stream's head is parked until the
    /// predecessor lands. Otherwise it is appended, and parked certificates
    /// are released in causal order for as long as any has become the head's
    /// successor: no certificate the pipeline knows is ever lost, and a
    /// parked certificate whose predecessor lands is committed.
    pub fn deliver(&mut self, cert: &Certificate) -> (r: DeliveryOutcome)
        requires
            old(self).wf(),
            cert_wf(*cert),
            old(self).store.stored_count(cert.source_subnet_id@) < u64::MAX,
        ensures
            final(self).wf(),
            forall|x: Seq<u8>| #![auto] old(self).knows_id(x) ==> final(self).knows_id(x),
            forall|x: Seq<u8>| #![auto]
                final(self).knows_id(x) ==> old(self).knows_id(x) || x == cert.id@,
            r == DeliveryOutcome::AlreadyDelivered <==> old(self).knows_id(cert.id@),
            r == DeliveryOutcome::Parked <==> !old(self).knows_id(cert.id@) && old(
                self,
            ).store.has_source(cert.source_subnet_id@) && cert.prev_id@ != old(self).store.head_id(
                cert.source_subnet_id@,
            ),
            match r {
                DeliveryOutcome::AlreadyDelivered => *final(self) == *old(self),
                DeliveryOutcome::Parked => {
                    &&& final(self).store == old(self).store
                    &&& final(self).parked@.len() == old(self).parked@.len() + 1
                    &&& forall|k: int| #![trigger old(self).parked@[k]]
                        0 <= k < old(self).parked@.len() ==> final(self).parked@[k] == old(
                            self,
                        ).parked@[k]
                    &&& final(self).parked@.last()@ == cert@
                },
                DeliveryOutcome::Delivered { position } => {
                    &&& position == old(self).store.stored_count(cert.source_subnet_id@) + 1
                    &&& final(self).store.contains_id(cert.id@)
                    &&& final(self).store.has_source(cert.source_subnet_id@)
                    &&& final(self).store.stored_count(cert.source_subnet_id@) >= position
                    &&& final(self).store.cert_at(cert.source_subnet_id@, position as int)@
                        == cert@
                    &&& forall|x: Seq<u8>| #![auto]
                        old(self).store.contains_id(x) ==> final(self).store.contains_id(x)
                    &&& forall|x: Seq<u8>| #![auto]
                        final(self).store.contains_id(x) ==> old(self).store.contains_id(x) || x
                            == cert.id@ || parked_contains_id(old(self).parked@, x)
                    &&& forall|x: Seq<u8>| #![auto]
                        parked_contains_id(final(self).parked@, x) ==> parked_contains_id(
                            old(self).parked@,
                            x,
                        )
                    &&& forall|x: Seq<u8>| #![auto]
                        parked_contains_id(old(self).parked@, x)
                            ==> final(self).store.contains_id(x) || parked_contains_id(
                            final(self).parked@,
                            x,
                        )
                    &&& forall|s: Seq<u8>| #![trigger final(self).store.stored_count(s)]
                        final(self).store.stored_count(s) <= old(self).store.stored_count(s)
                            + old(self).parked@.len() + 1
                    &&& forall|s: Seq<u8>| #![auto]
                        old(self).store.has_source(s) ==> final(self).store.has_source(s)
                    &&& forall|s: Seq<u8>, p: int| #![trigger final(self).store.cert_at(s, p)]
                        1 <= p <= old(self).store.stored_count(s) ==> final(self).store.cert_at(
                            s,
                            p,
                        )@ == old(self).store.cert_at(s, p)@
                },
            },
    {
        if self.knows_certificate(&cert.id) {
            return DeliveryOutcome::AlreadyDelivered;
        }
        let ghost pre = *old(self);
        match self.store.put_delivered(cert) {
            Ok(position) => {
                proof {
                    assert forall|k: int| #![trigger self.parked@[k]]
                        0 <= k < self.parked@.len() implies cert_wf(self.parked@[k])
                        && !self.store.contains_id(self.parked@[k].id@) by {
                        assert(!parked_contains_id(pre.parked@, cert.id@)) by {
                            if parked_contains_id(pre.parked@, cert.id@) {
                                assert(pre.knows_id(cert.id@));
                            }
                        }
                        assert(self.parked@[k].id@ != cert.id@);
                    }
                }
                let ghost staged = *self;
                self.release_parked();
                proof {
                    assert(staged.store.delivered_post(pre.store, *cert, position));
                    assert(self.store.has_source(cert.source_subnet_id@)
                        && self.store.stored_count(cert.source_subnet_id@) >= position) by {
                        assert(staged.store.stored_count(cert.source_subnet_id@) == position);
                        assert(self.store.stored_count(cert.source_subnet_id@)
                            >= staged.store.stored_count(cert.source_subnet_id@));
                        assert(self.store.stored_count(cert.source_subnet_id@) > 0);
                    }
                    assert(self.store.cert_at(cert.source_subnet_id@, position as int)@
                        == cert@) by {
                        assert(staged.store.stream_view(cert.source_subnet_id@)
                            == pre.store.streams_map().insert(
                            cert.source_subnet_id@,
                            pre.store.stream_view(cert.source_subnet_id@).push(cert@),
                        )[cert.source_subnet_id@]);
                        assert(staged.store.cert_at(cert.source_subnet_id@, position as int)@
                            == staged.store.stream_view(cert.source_subnet_id@)[position - 1]);
                    }
                    assert forall|x: Seq<u8>| #![auto] pre.knows_id(x) implies
                        self.knows_id(x) by {
                        if parked_contains_id(pre.parked@, x) {
                            assert(parked_contains_id(staged.parked@, x));
                        }
                    }
                    assert forall|x: Seq<u8>| #![auto] self.knows_id(x) implies pre.knows_id(x)
                        || x == cert.id@ by {
                        if self.store.contains_id(x) {
                            assert(staged.store.contains_id(x) || parked_contains_id(
                                staged.parked@,
                                x,
                            ));
                        }
                        if parked_contains_id(self.parked@, x) {
                            assert(parked_contains_id(staged.parked@, x));
                        }
                        assert(staged.parked@ == pre.parked@);
                    }
                    assert forall|s: Seq<u8>| #![trigger self.store.stored_count(s)]
                        self.store.stored_count(s) <= pre.store.stored_count(s)
                            + pre.parked@.len() + 1 by {
                        assert(self.store.stored_count(s) + self.parked@.len()
                            <= staged.store.stored_count(s) + staged.parked@.len());
                        if s == cert.source_subnet_id@ {
                            assert(staged.store.stored_count(s) == pre.store.stored_count(s) + 1);
                        } else {
                            assert(staged.store.stream_view(s) == pre.store.stream_view(s));
                            assert(staged.store.stored_count(s) == pre.store.stored_count(s)) by {
                                assert(staged.store.stream_view(s).len()
                                    == staged.store.stored_count(s));
                                assert(pre.store.stream_view(s).len()
                                    == pre.store.stored_count(s));
                            }
                        }
                    }
                    assert forall|s: Seq<u8>, p: int| #![trigger self.store.cert_at(s, p)]
                        1 <= p <= pre.store.stored_count(s) implies self.store.cert_at(s, p)@
                        == pre.store.cert_at(s, p)@ by {
                        assert(pre.store.stored_count(s) <= staged.store.stored_count(s)) by {
                            if s == cert.source_subnet_id@ {
                                assert(staged.store.stored_count(s)
                                    == pre.store.stored_count(s) + 1);
                            } else {
                                assert(staged.store.stream_view(s) == pre.store.stream_view(s));
                                assert(staged.store.stream_view(s).len()
                                    == staged.store.stored_count(s));
                                assert(pre.store.stream_view(s).len()
                                    == pre.store.stored_count(s));
                            }
                        }
                        assert(self.store.cert_at(s, p)@ == staged.store.cert_at(s, p)@);
                        if s == cert.source_subnet_id@ {
                            assert(staged.store.stream_view(s) == pre.store.stream_view(s).push(
                                cert@,
                            )) by {
                                assert(staged.store.stream_view(s)
                                    == pre.store.streams_map().insert(
                                    s,
                                    pre.store.stream_view(s).push(cert@),
                                )[s]);
                            }
                            assert(staged.store.cert_at(s, p)@
                                == staged.store.stream_view(s)[p - 1]);
                            assert(pre.store.cert_at(s, p)@ == pre.store.stream_view(s)[p - 1]);
                        } else {
                            assert(staged.store.stream_view(s) == pre.store.stream_view(s));
                            assert(staged.store.cert_at(s, p)@
                                == staged.store.stream_view(s)[p - 1]);
                            assert(pre.store.cert_at(s, p)@ == pre.store.stream_view(s)[p - 1]);
                        }
                    }
                    assert forall|s: Seq<u8>| #![auto] pre.store.has_source(s) implies
                        self.store.has_source(s) by {
                        assert(pre.store.stored_count(s) > 0) by {
                            let j = pre.store.source_index(s);
                            assert(pre.store.streams@[j].wf());
                        }
                        assert(self.store.stored_count(s) >= staged.store.stored_count(s));
                        assert(staged.store.stored_count(s) >= pre.store.stored_count(s)) by {
                            if s != cert.source_subnet_id@ {
                                assert(staged.store.stream_view(s) == pre.store.stream_view(s));
                                assert(staged.store.stream_view(s).len()
                                    == staged.store.stored_count(s));
                                assert(pre.store.stream_view(s).len()
                                    == pre.store.stored_count(s));
                            }
                        }
                        assert(self.store.stored_count(s) > 0);
                    }
                }
                DeliveryOutcome::Delivered { position }
            },
            Err(StorageError::UnexpectedPrev) => {
                let ghost prev_parked = self.parked@;
                self.parked.push(cert.duplicate());
                proof {
                    assert forall|k1: int, k2: int|
                        0 <= k1 < k2 < self.parked@.len() implies self.parked@[k1].id@
                        != self.parked@[k2].id@ by {
                        if k2 == self.parked@.len() - 1 {
                            if self.parked@[k1].id@ == cert.id@ {
                                assert(parked_contains_id(prev_parked, cert.id@));
                                assert(pre.knows_id(cert.id@));
                            }
                        }
                    }
                    assert(!releasable(self.store, self.parked@[self.parked@.len() - 1]));
                    assert forall|x: Seq<u8>| #![auto] pre.knows_id(x) implies self.knows_id(
                        x,
                    ) by {
                        if parked_contains_id(prev_parked, x) {
                            let k = choose|k: int|
                                0 <= k < prev_parked.len() && prev_parked[k].id@ == x;
                            assert(self.parked@[k].id@ == x);
                        }
                    }
                    assert forall|x: Seq<u8>| #![auto] self.knows_id(x) implies pre.knows_id(x)
                        || x == cert.id@ by {
                        if parked_contains_id(self.parked@, x) {
                            let k = choose|k: int|
                                0 <= k < self.parked@.len() && self.parked@[k].id@ == x;
                            if k < prev_parked.len() {
                                assert(prev_parked[k].id@ == x);
                            } else {
                                assert(self.parked@[k].id@ == cert.id@);
                            }
                        }
                    }
                }
                DeliveryOutcome::Parked
            },
            Err(StorageError::AlreadyExists) => {
                // Unreachable: the id was checked above.
                proof {
                    assert(false);
                }
                DeliveryOutcome::AlreadyDelivered
            },
        }
    }

    /// Releases parked certificates for as long as one of them is the
    /// successor of its stream's head, committing each in turn.
    fn release_parked(&mut self)
        requires
            old(self).store.wf(),
            forall|k: int| #![trigger old(self).parked@[k]]
                0 <= k < old(self).parked@.len() ==> cert_wf(old(self).parked@[k]) && !old(
                    self,
                ).store.contains_id(old(self).parked@[k].id@),
            forall|k1: int, k2: int|
                0 <= k1 < k2 < old(self).parked@.len() ==> old(self).parked@[k1].id@ != old(
                    self,
                ).parked@[k2].id@,
        ensures
            final(self).wf(),
            forall|x: Seq<u8>| #![auto]
                old(self).store.contains_id(x) ==> final(self).store.contains_id(x),
            forall|x: Seq<u8>| #![auto]
                final(self).store.contains_id(x) ==> old(self).store.contains_id(x)
                    || parked_contains_id(old(self).parked@, x),
            forall|x: Seq<u8>| #![auto]
                parked_contains_id(final(self).parked@, x) ==> parked_contains_id(
                    old(self).parked@,
                    x,
                ),
            forall|x: Seq<u8>| #![auto]
                parked_contains_id(old(self).parked@, x) ==> final(self).store.contains_id(x)
                    || parked_contains_id(final(self).parked@, x),
            forall|s: Seq<u8>| #![trigger final(self).store.stored_count(s)]
                final(self).store.stored_count(s) >= old(self).store.stored_count(s)
                    && final(self).store.stored_count(s) + final(self).parked@.len()
                    <= old(self).store.stored_count(s) + old(self).parked@.len(),
            forall|s: Seq<u8>, p: int| #![trigger final(self).store.cert_at(s, p)]
                1 <= p <= old(self).store.stored_count(s) ==> final(self).store.cert_at(s, p)@
                    == old(self).store.cert_at(s, p)@,
    {
        loop
            invariant
                self.store.wf(),
                forall|k: int| #![trigger self.parked@[k]]
                    0 <= k < self.parked@.len() ==> cert_wf(self.parked@[k])
                        && !self.store.contains_id(self.parked@[k].id@),
                forall|k1: int, k2: int|
                    0 <= k1 < k2 < self.parked@.len() ==> self.parked@[k1].id@
                        != self.parked@[k2].id@,
                forall|x: Seq<u8>| #![auto]
                    old(self).store.contains_id(x) ==> self.store.contains_id(x),
                forall|x: Seq<u8>| #![auto]
                    self.store.contains_id(x) ==> old(self).store.contains_id(x)
                        || parked_contains_id(old(self).parked@, x),
                forall|x: Seq<u8>| #![auto]
                    parked_contains_id(self.parked@, x) ==> parked_contains_id(
                        old(self).parked@,
                        x,
                    ),
                forall|x: Seq<u8>| #![auto]
                    parked_contains_id(old(self).parked@, x) ==> self.store.contains_id(x)
                        || parked_contains_id(self.parked@, x),
                forall|s: Seq<u8>| #![trigger self.store.stored_count(s)]
                    self.store.stored_count(s) >= old(self).store.stored_count(s)
                        && self.store.stored_count(s) + self.parked@.len()
                        <= old(self).store.stored_count(s) + old(self).parked@.len(),
                forall|s: Seq<u8>, p: int| #![trigger self.store.cert_at(s, p)]
                    1 <= p <= old(self).store.stored_count(s) ==> self.store.cert_at(s, p)@
                        == old(self).store.cert_at(s, p)@,
            decreases self.parked@.len(),
        {
            let idx = match self.find_releasable() {
                Some(k) => k,
                None => {
                    break ;
                },
            };
            let ghost mid = *self;
            let p = self.parked.swap_remove(idx);
            proof {
                assert forall|x: Seq<u8>| #![auto]
                    parked_contains_id(mid.parked@, x) && x != p.id@ implies parked_contains_id(
                    self.parked@,
                    x,
                ) by {
                    let k = choose|k: int| 0 <= k < mid.parked@.len() && mid.parked@[k].id@ == x;
                    let n = mid.parked@.len() - 1;
                    assert(k != idx) by {
                        assert(mid.parked@[idx as int] == p);
                    }
                    if k == n {
                        assert(idx < n);
                        assert(self.parked@[idx as int].id@ == x);
                    } else {
                        assert(self.parked@[k].id@ == x);
                    }
                }
                assert forall|x: Seq<u8>| #![auto] parked_contains_id(self.parked@, x) implies
                    parked_contains_id(mid.parked@, x) by {
                    if parked_contains_id(self.parked@, x) {
                        let k = choose|k: int|
                            0 <= k < self.parked@.len() && self.parked@[k].id@ == x;
                        if k == idx {
                            assert(mid.parked@.last().id@ == x);
                        } else {
                            assert(mid.parked@[k].id@ == x);
                        }
                    }
                }
                assert(cert_wf(p) && !self.store.contains_id(p.id@)) by {
                    assert(mid.parked@[idx as int] == p);
                }
                assert forall|k1: int, k2: int|
                    0 <= k1 < k2 < self.parked@.len() implies self.parked@[k1].id@
                    != self.parked@[k2].id@ by {
                    let n = mid.parked@.len() - 1;
                    if k1 == idx {
                        assert(self.parked@[k1] == mid.parked@[n as int]);
                    } else {
                        assert(self.parked@[k1] == mid.parked@[k1]);
                    }
                    if k2 == idx {
                        assert(self.parked@[k2] == mid.parked@[n as int]);
                    } else {
                        assert(self.parked@[k2] == mid.parked@[k2]);
                    }
                }
                assert forall|k: int| #![trigger self.parked@[k]]
                    0 <= k < self.parked@.len() implies cert_wf(self.parked@[k])
                    && !self.store.contains_id(self.parked@[k].id@) by {
                    let n = mid.parked@.len() - 1;
                    if k == idx {
                        assert(self.parked@[k] == mid.parked@[n as int]);
                    } else {
                        assert(self.parked@[k] == mid.parked@[k]);
                    }
                }
            }
            let ghost before_put = self.store;
            let result = self.store.put_delivered(&p);
            proof {
                assert(result is Ok);
                assert forall|k: int| #![trigger self.parked@[k]]
                    0 <= k < self.parked@.len() implies cert_wf(self.parked@[k])
                        && !self.store.contains_id(self.parked@[k].id@) by {
                    let n = mid.parked@.len() - 1;
                    let q = self.parked@[k];
                    if k == idx {
                        assert(q == mid.parked@[n as int]);
                    } else {
                        assert(q == mid.parked@[k]);
                    }
                    if q.id@ == p.id@ {
                        assert(parked_contains_id(mid.parked@, q.id@));
                        if k == idx {
                            assert(mid.parked@[n as int].id@ != mid.parked@[idx as int].id@
                                || n == idx);
                        } else {
                            assert(mid.parked@[k].id@ != mid.parked@[idx as int].id@);
                        }
                    }
                    assert(q.id@ != p.id@);
                    assert(!before_put.contains_id(q.id@));
                }
                assert forall|x: Seq<u8>| #![auto] self.store.contains_id(x) implies
                    old(self).store.contains_id(x) || parked_contains_id(old(self).parked@, x)
                by {
                    if self.store.contains_id(x) {
                        if x == p.id@ {
                            assert(parked_contains_id(mid.parked@, x)) by {
                                assert(mid.parked@[idx as int].id@ == x);
                            }
                        }
                    }
                }
                let pos = result->Ok_0;
                let source = p.source_subnet_id@;
                assert(self.store.delivered_post(before_put, p, pos));
                assert(self.store.stream_view(source) == before_put.stream_view(source).push(
                    p@,
                )) by {
                    assert(self.store.streams_map()[source] == before_put.streams_map().insert(
                        source,
                        before_put.stream_view(source).push(p@),
                    )[source]);
                }
                assert forall|x: Seq<u8>| #![auto] parked_contains_id(old(self).parked@, x)
                    implies self.store.contains_id(x) || parked_contains_id(self.parked@, x) by {
                    if !parked_contains_id(self.parked@, x) && !mid.store.contains_id(x) {
                        assert(parked_contains_id(mid.parked@, x) ==> x == p.id@);
                    }
                }
                assert forall|s: Seq<u8>| #![trigger self.store.stored_count(s)]
                    self.store.stored_count(s) >= old(self).store.stored_count(s)
                        && self.store.stored_count(s) + self.parked@.len()
                        <= old(self).store.stored_count(s) + old(self).parked@.len() by {
                    if s == source {
                        assert(self.store.stored_count(s) == before_put.stored_count(s) + 1);
                    } else {
                        assert(self.store.stream_view(s) == before_put.stream_view(s));
                        assert(self.store.stored_count(s) == before_put.stored_count(s)) by {
                            assert(self.store.stream_view(s).len() == self.store.stored_count(s));
                            assert(before_put.stream_view(s).len() == before_put.stored_count(s));
                        }
                    }
                    assert(mid.store.stored_count(s) == before_put.stored_count(s));
                }
                assert forall|s: Seq<u8>, p2: int| #![trigger self.store.cert_at(s, p2)]
                    1 <= p2 <= old(self).store.stored_count(s) implies self.store.cert_at(
                    s,
                    p2,
                )@ == old(self).store.cert_at(s, p2)@ by {
                    assert(mid.store.cert_at(s, p2)@ == old(self).store.cert_at(s, p2)@);
                    assert(old(self).store.stored_count(s) <= before_put.stored_count(s));
                    if s == source {
                        assert(self.store.stream_view(s)[p2 - 1] == before_put.stream_view(
                            s,
                        ).push(p@)[p2 - 1]);
                        assert(self.store.cert_at(s, p2)@ == self.store.stream_view(s)[p2 - 1]);
                        assert(before_put.cert_at(s, p2)@ == before_put.stream_view(s)[p2 - 1]);
                    } else {
                        assert(self.store.stream_view(s) == before_put.stream_view(s));
                        assert(self.store.cert_at(s, p2)@ == self.store.stream_view(s)[p2 - 1]);
                        assert(before_put.cert_at(s, p2)@ == before_put.stream_view(s)[p2 - 1]);
                    }
                }
            }
        }
    }
}

} // verus!
