//! The double-echo broadcast engine: a Byzantine reliable broadcast state
//! machine per certificate, over a bounded validator set. It counts distinct
//! echoes and readies, amplifies readies, and declares delivery at the
//! configured quorum.

use vstd::prelude::*;

use crate::types::{cert_wf, Certificate, CertificateId, CertificateView, copy_vec};

verus! {

/// A validator's identity, opaque to this layer.
#[derive(Clone, Copy, Debug, PartialEq, Eq, Hash, Structural)]
pub struct ValidatorId(pub u64);

/// The quorum sizes, fixed for the lifetime of a broadcast.
#[derive(Clone, Copy, Debug, PartialEq, Eq, Structural)]
pub struct BroadcastParams {
    /// Distinct echoes required before this node emits its own ready.
    pub echo_threshold: usize,
    /// Distinct readies required to amplify a ready.
    pub ready_threshold: usize,
    /// Distinct readies required to deliver.
    pub delivery_threshold: usize,
}

/// What the engine tells the outside world.
pub enum ProtocolEvents {
    /// The sampling subsystem reached a stable sample; serving may begin.
    StableSample,
    /// A broadcast has begun (diagnostic).
    Broadcast { certificate_id: CertificateId },
    /// A validated submission that wants dissemination on the gossip topic.
    Gossip { cert: Certificate },
    /// This node's echo, for the echo topic (published only by validators).
    Echo { certificate_id: CertificateId, signature: Vec<u8>, validator_id: ValidatorId },
    /// This node's ready, for the ready topic (published only by validators).
    Ready { certificate_id: CertificateId, signature: Vec<u8>, validator_id: ValidatorId },
    /// A ready quorum formed: the certificate is delivered and must be
    /// persisted.
    CertificateDelivered { certificate: Certificate },
    /// A re-submission of an already delivered certificate.
    AlreadyDelivered { certificate_id: CertificateId },
    /// The idle timer elapsed without a delivery quorum.
    BroadcastFailed { certificate_id: CertificateId },
    /// An unrecoverable engine fault.
    Die,
}

/// The per-certificate broadcast state.
pub struct BroadcastState {
    /// The certificate under broadcast.
    pub certificate: Certificate,
    /// Distinct validators whose echo was observed.
    pub echoes: Vec<ValidatorId>,
    /// Distinct validators whose ready was observed.
    pub readies: Vec<ValidatorId>,
    /// Whether this node already moved to the ready phase.
    pub ready_sent: bool,
    /// Whether the delivery quorum was reached.
    pub delivered: bool,
}

/// The mathematical value of a per-certificate broadcast state.
#[verifier::ext_equal]
pub ghost struct BroadcastStateModel {
    pub certificate: CertificateView,
    pub echoes: Seq<ValidatorId>,
    pub readies: Seq<ValidatorId>,
    pub ready_sent: bool,
    pub delivered: bool,
}

impl View for BroadcastState {
    type V = BroadcastStateModel;

    open spec fn view(&self) -> BroadcastStateModel {
        BroadcastStateModel {
            certificate: self.certificate@,
            echoes: self.echoes@,
            readies: self.readies@,
            ready_sent: self.ready_sent,
            delivered: self.delivered,
        }
    }
}

/// The state a certificate enters on first observation.
pub open spec fn initial_state(cert: CertificateView) -> BroadcastStateModel {
    BroadcastStateModel {
        certificate: cert,
        echoes: Seq::empty(),
        readies: Seq::empty(),
        ready_sent: false,
        delivered: false,
    }
}

/// Set-semantics insertion: a validator already counted is not counted again.
pub open spec fn add_unique(s: Seq<ValidatorId>, v: ValidatorId) -> Seq<ValidatorId> {
    if s.contains(v) {
        s
    } else {
        s.push(v)
    }
}

/// How one echo changes a broadcast state: counted once per validator;
/// reaching the echo threshold moves the node to the ready phase; a
/// delivered certificate ignores further echoes.
pub open spec fn echo_transition(
    st: BroadcastStateModel,
    v: ValidatorId,
    echo_threshold: usize,
) -> BroadcastStateModel {
    if st.delivered {
        st
    } else {
        let echoes = add_unique(st.echoes, v);
        BroadcastStateModel {
            echoes,
            ready_sent: st.ready_sent || echoes.len() >= echo_threshold,
            ..st
        }
    }
}

/// How one ready changes a broadcast state: counted once per validator;
/// reaching the ready threshold amplifies; reaching the delivery threshold
/// delivers; a delivered certificate ignores further readies.
pub open spec fn ready_transition(
    st: BroadcastStateModel,
    v: ValidatorId,
    ready_threshold: usize,
    delivery_threshold: usize,
) -> BroadcastStateModel {
    if st.delivered {
        st
    } else {
        let readies = add_unique(st.readies, v);
        BroadcastStateModel {
            readies,
            ready_sent: st.ready_sent || readies.len() >= ready_threshold,
            delivered: readies.len() >= delivery_threshold,
            ..st
        }
    }
}

/// What a submission leaves of the engine's state: a first observation is
/// recorded; a known certificate id changes nothing.
pub open spec fn submit_model(
    m: Map<Seq<u8>, BroadcastStateModel>,
    cert: CertificateView,
) -> Map<Seq<u8>, BroadcastStateModel> {
    if m.contains_key(cert.id) {
        m
    } else {
        m.insert(cert.id, initial_state(cert))
    }
}

/// Law: submitting a certificate twice leaves exactly the state one
/// submission leaves; the second observation of a known id changes nothing.
pub proof fn lemma_submit_idempotent(m: Map<Seq<u8>, BroadcastStateModel>, cert: CertificateView)
    ensures
        submit_model(submit_model(m, cert), cert) == submit_model(m, cert),
{
}

/// Invariants of one broadcast state under the given quorum sizes.
pub open spec fn state_wf(st: BroadcastStateModel, params: BroadcastParams) -> bool {
    &&& st.echoes.no_duplicates()
    &&& st.readies.no_duplicates()
    &&& (st.delivered ==> st.readies.len() >= params.delivery_threshold)
    &&& (st.ready_sent ==> st.echoes.len() >= params.echo_threshold || st.readies.len()
        >= params.ready_threshold)
}

/// Appends a validator unless it was already counted.
fn push_unique(v: &mut Vec<ValidatorId>, x: ValidatorId)
    requires
        old(v)@.no_duplicates(),
    ensures
        final(v)@ == add_unique(old(v)@, x),
        final(v)@.no_duplicates(),
        final(v)@.len() >= old(v)@.len(),
{
    let mut i: usize = 0;
    while i < v.len()
        invariant
            0 <= i <= v@.len(),
            forall|k: int| 0 <= k < i ==> v@[k] != x,
        decreases v@.len() - i,
    {
        if v[i] == x {
            assert(v@.contains(x));
            return ;
        }
        i += 1;
    }
    assert(!v@.contains(x));
    let ghost prev = v@;
    v.push(x);
    proof {
        assert forall|k1: int, k2: int| 0 <= k1 < k2 < v@.len() implies v@[k1] != v@[k2] by {
            if k2 == v@.len() - 1 {
                assert(v@[k1] == prev[k1]);
                if v@[k1] == x {
                    assert(prev.contains(x));
                }
            }
        }
    }
}

/// The broadcast engine of one node.
pub struct DoubleEcho {
    /// The quorum sizes derived from the validator set at startup.
    pub params: BroadcastParams,
    /// This node's own validator identity, used in emitted echoes and readies.
    pub local_validator: ValidatorId,
    /// One state per certificate under broadcast, keyed by certificate id.
    pub states: Vec<BroadcastState>,
}

impl DoubleEcho {
    /// States belong to pairwise distinct certificate ids.
    pub open spec fn keys_distinct(&self) -> bool {
        forall|j1: int, j2: int|
            0 <= j1 < j2 < self.states@.len() ==> self.states@[j1].certificate.id@
                != self.states@[j2].certificate.id@
    }

    /// Well-formedness of the engine.
    pub open spec fn wf(&self) -> bool {
        &&& self.keys_distinct()
        &&& forall|j: int| #![trigger self.states@[j]]
            0 <= j < self.states@.len() ==> state_wf(self.states@[j]@, self.params) && cert_wf(
                self.states@[j].certificate,
            )
    }

    /// Whether a certificate id is under broadcast (or was delivered).
    pub open spec fn known(&self, id: Seq<u8>) -> bool {
        exists|j: int| 0 <= j < self.states@.len() && self.states@[j].certificate.id@ == id
    }

    /// The index of a known certificate id's state.
    pub open spec fn state_index(&self, id: Seq<u8>) -> int {
        choose|j: int| 0 <= j < self.states@.len() && self.states@[j].certificate.id@ == id
    }

    /// The state of a known certificate id.
    pub open spec fn state_of(&self, id: Seq<u8>) -> BroadcastStateModel {
        self.states@[self.state_index(id)]@
    }

    /// The engine as a map from certificate id bytes to broadcast state.
    pub open spec fn states_map(&self) -> Map<Seq<u8>, BroadcastStateModel> {
        Map::new(|id: Seq<u8>| self.known(id), |id: Seq<u8>| self.state_of(id))
    }

    /// A fresh engine with no broadcast under way.
    pub fn new(params: BroadcastParams, local_validator: ValidatorId) -> (r: DoubleEcho)
        ensures
            r.wf(),
            r.params == params,
            r.local_validator == local_validator,
            forall|id: Seq<u8>| !r.known(id),
            r.states_map() =~= Map::<Seq<u8>, BroadcastStateModel>::empty(),
    {
        let r = DoubleEcho { params, local_validator, states: Vec::new() };
        proof {
            assert(r.states_map().dom() =~= Set::<Seq<u8>>::empty());
        }
        r
    }

    /// With distinct keys, a state's own index is the one `state_index`
    /// picks.
    pub proof fn lemma_state_lookup(&self, j: int)
        requires
            self.keys_distinct(),
            0 <= j < self.states@.len(),
        ensures
            self.known(self.states@[j].certificate.id@),
            self.state_index(self.states@[j].certificate.id@) == j,
    {
        let id = self.states@[j].certificate.id@;
        assert(self.known(id));
        let j2 = self.state_index(id);
        if j2 != j {
            if j < j2 {
                assert(self.states@[j].certificate.id@ != self.states@[j2].certificate.id@);
            } else {
                assert(self.states@[j2].certificate.id@ != self.states@[j].certificate.id@);
            }
        }
    }

    /// After updating one state in place without changing its key, the map
    /// is the old map with that key bound anew.
    proof fn lemma_state_update(&self, pre: DoubleEcho, j: int)
        requires
            pre.keys_distinct(),
            0 <= j < pre.states@.len(),
            self.states@.len() == pre.states@.len(),
            forall|j2: int| #![trigger self.states@[j2]]
                0 <= j2 < self.states@.len() && j2 != j ==> self.states@[j2] == pre.states@[j2],
            self.states@[j].certificate.id@ == pre.states@[j].certificate.id@,
        ensures
            self.keys_distinct(),
            forall|id: Seq<u8>| self.known(id) == pre.known(id),
            self.states_map() =~= pre.states_map().insert(
                pre.states@[j].certificate.id@,
                self.states@[j]@,
            ),
    {
        let key = pre.states@[j].certificate.id@;
        assert forall|id: Seq<u8>| self.known(id) == pre.known(id) by {
            if pre.known(id) {
                let j2 = pre.state_index(id);
                assert(self.states@[j2].certificate.id@ == id);
            }
            if self.known(id) {
                let j2 = self.state_index(id);
                assert(pre.states@[j2].certificate.id@ == id);
            }
        }
        self.lemma_state_lookup(j);
        assert forall|id: Seq<u8>| #![auto] self.known(id) implies self.state_of(id) == (
        if id == key {
            self.states@[j]@
        } else {
            pre.state_of(id)
        }) by {
            let j2 = self.state_index(id);
            if id == key {
                assert(j2 == j);
            } else {
                assert(j2 != j);
                pre.lemma_state_lookup(j2);
            }
        }
        assert(self.states_map().dom() =~= pre.states_map().insert(
            key,
            self.states@[j]@,
        ).dom());
        assert(self.states_map() =~= pre.states_map().insert(key, self.states@[j]@));
    }

    /// Finds the state of a certificate id, if one exists.
    fn find_state(&self, id: &CertificateId) -> (r: Option<usize>)
        requires
            self.keys_distinct(),
        ensures
            match r {
                Some(j) => 0 <= j < self.states@.len() && self.states@[j as int].certificate.id@
                    == id@ && self.known(id@) && self.state_index(id@) == j,
                None => !self.known(id@),
            },
    {
        let mut j: usize = 0;
        while j < self.states.len()
            invariant
                0 <= j <= self.states@.len(),
                forall|k: int| 0 <= k < j ==> self.states@[k].certificate.id@ != id@,
            decreases self.states@.len() - j,
        {
            if self.states[j].certificate.id.equals(id) {
                proof {
                    self.lemma_state_lookup(j as int);
                }
                return Some(j);
            }
            j += 1;
        }
        None
    }
}

impl DoubleEcho {
    /// After appending one state with a fresh key, the map is the old map
    /// with that key bound.
    proof fn lemma_state_insert(&self, pre: DoubleEcho, id: Seq<u8>)
        requires
            pre.keys_distinct(),
            !pre.known(id),
            self.states@.len() == pre.states@.len() + 1,
            forall|j2: int| #![trigger self.states@[j2]]
                0 <= j2 < pre.states@.len() ==> self.states@[j2] == pre.states@[j2],
            self.states@[pre.states@.len() as int].certificate.id@ == id,
        ensures
            self.keys_distinct(),
            forall|id2: Seq<u8>| self.known(id2) == (pre.known(id2) || id2 == id),
            self.known(id) && self.state_index(id) == pre.states@.len(),
            self.states_map() =~= pre.states_map().insert(
                id,
                self.states@[pre.states@.len() as int]@,
            ),
    {
        let n = pre.states@.len() as int;
        assert forall|j1: int, j2: int| 0 <= j1 < j2 < self.states@.len() implies
            self.states@[j1].certificate.id@ != self.states@[j2].certificate.id@ by {
            if j2 == n {
                if self.states@[j1].certificate.id@ == id {
                    assert(pre.states@[j1].certificate.id@ == id);
                    assert(pre.known(id));
                }
            }
        }
        assert forall|id2: Seq<u8>| self.known(id2) == (pre.known(id2) || id2 == id) by {
            if pre.known(id2) {
                let j2 = pre.state_index(id2);
                assert(self.states@[j2].certificate.id@ == id2);
            }
            if id2 == id {
                assert(self.states@[n].certificate.id@ == id2);
            }
            if self.known(id2) {
                let j2 = self.state_index(id2);
                if j2 != n {
                    assert(pre.states@[j2].certificate.id@ == id2);
                }
            }
        }
        self.lemma_state_lookup(n);
        assert forall|id2: Seq<u8>| #![auto] self.known(id2) implies self.state_of(id2) == (
        if id2 == id {
            self.states@[n]@
        } else {
            pre.state_of(id2)
        }) by {
            let j2 = self.state_index(id2);
            if id2 == id {
                assert(j2 == n);
            } else {
                assert(j2 != n);
                pre.lemma_state_lookup(j2);
            }
        }
        assert(self.states_map().dom() =~= pre.states_map().insert(
            id,
            self.states@[n]@,
        ).dom());
        assert(self.states_map() =~= pre.states_map().insert(id, self.states@[n]@));
    }

    /// Takes a validated certificate under broadcast: a first observation
    /// starts the state machine and asks for dissemination and an echo; a
    /// known id changes nothing, so submission is idempotent.
    pub fn on_broadcast(
        &mut self,
        cert: &Certificate,
        signature: &Vec<u8>,
        local_submission: bool,
    ) -> (events: Vec<ProtocolEvents>)
        requires
            old(self).wf(),
            cert_wf(*cert),
        ensures
            final(self).wf(),
            final(self).params == old(self).params,
            final(self).local_validator == old(self).local_validator,
            final(self).states_map() =~= submit_model(old(self).states_map(), cert@),
            old(self).known(cert.id@) ==> *final(self) == *old(self) && (if old(self).state_of(
                cert.id@,
            ).delivered {
                events@.len() == 1 && (events@[0] matches ProtocolEvents::AlreadyDelivered {
                    certificate_id,
                } && certificate_id@ == cert.id@)
            } else {
                events@.len() == 0
            }),
            !old(self).known(cert.id@) ==> {
                &&& final(self).known(cert.id@)
                &&& final(self).state_of(cert.id@) == initial_state(cert@)
                &&& events@.len() == (if local_submission {
                    3int
                } else {
                    2int
                })
                &&& (events@[0] matches ProtocolEvents::Broadcast { certificate_id }
                    && certificate_id@ == cert.id@)
                &&& (local_submission ==> (events@[1] matches ProtocolEvents::Gossip { cert: c }
                    && c@ == cert@))
                &&& (events@[events@.len() - 1] matches ProtocolEvents::Echo {
                    certificate_id,
                    signature: sig,
                    validator_id,
                } && certificate_id@ == cert.id@ && sig@ == signature@ && validator_id == old(
                    self,
                ).local_validator)
            },
    {
        let mut events: Vec<ProtocolEvents> = Vec::new();
        match self.find_state(&cert.id) {
            Some(j) => {
                if self.states[j].delivered {
                    events.push(ProtocolEvents::AlreadyDelivered { certificate_id: cert.id });
                }
                events
            },
            None => {
                let ghost pre = *self;
                let state = BroadcastState {
                    certificate: cert.duplicate(),
                    echoes: Vec::new(),
                    readies: Vec::new(),
                    ready_sent: false,
                    delivered: false,
                };
                self.states.push(state);
                proof {
                    self.lemma_state_insert(pre, cert.id@);
                    assert(self.states@[pre.states@.len() as int]@ =~= initial_state(cert@));
                }
                events.push(ProtocolEvents::Broadcast { certificate_id: cert.id });
                if local_submission {
                    events.push(ProtocolEvents::Gossip { cert: cert.duplicate() });
                }
                events.push(
                    ProtocolEvents::Echo {
                        certificate_id: cert.id,
                        signature: copy_vec(signature),
                        validator_id: self.local_validator,
                    },
                );
                events
            },
        }
    }

    /// Counts one validator's echo for a certificate: duplicates are ignored,
    /// a delivered certificate ignores echoes, and reaching the echo
    /// threshold moves this node to the ready phase, emitting its ready. An
    /// echo for an unknown certificate id changes nothing.
    pub fn on_echo(
        &mut self,
        certificate_id: &CertificateId,
        validator_id: ValidatorId,
        signature: &Vec<u8>,
    ) -> (events: Vec<ProtocolEvents>)
        requires
            old(self).wf(),
        ensures
            final(self).wf(),
            final(self).params == old(self).params,
            final(self).local_validator == old(self).local_validator,
            !old(self).known(certificate_id@) ==> *final(self) == *old(self) && events@.len()
                == 0,
            old(self).known(certificate_id@) ==> {
                let st1 = echo_transition(
                    old(self).state_of(certificate_id@),
                    validator_id,
                    old(self).params.echo_threshold,
                );
                &&& final(self).states_map() =~= old(self).states_map().insert(
                    certificate_id@,
                    st1,
                )
                &&& (if !old(self).state_of(certificate_id@).ready_sent && st1.ready_sent {
                    events@.len() == 1 && (events@[0] matches ProtocolEvents::Ready {
                        certificate_id: cid,
                        signature: sig,
                        validator_id: vid,
                    } && cid@ == certificate_id@ && sig@ == signature@ && vid == old(
                        self,
                    ).local_validator)
                } else {
                    events@.len() == 0
                })
            },
    {
        let mut events: Vec<ProtocolEvents> = Vec::new();
        let params = self.params;
        match self.find_state(certificate_id) {
            Some(j) => {
                let ghost pre = *self;
                let ghost st0 = self.states@[j as int]@;
                let mut emit_ready = false;
                let state = &mut self.states[j];
                if !state.delivered {
                    push_unique(&mut state.echoes, validator_id);
                    if !state.ready_sent && state.echoes.len() >= params.echo_threshold {
                        state.ready_sent = true;
                        emit_ready = true;
                    }
                }
                proof {
                    assert(self.states@[j as int]@ =~= echo_transition(
                        st0,
                        validator_id,
                        params.echo_threshold,
                    ));
                    self.lemma_state_update(pre, j as int);
                }
                if emit_ready {
                    events.push(
                        ProtocolEvents::Ready {
                            certificate_id: *certificate_id,
                            signature: copy_vec(signature),
                            validator_id: self.local_validator,
                        },
                    );
                }
                events
            },
            None => events,
        }
    }

    /// Counts one validator's ready for a certificate: duplicates are
    /// ignored, reaching the ready threshold amplifies this node's ready, and
    /// reaching the delivery threshold delivers the certificate, handing it
    /// out for persistence. A ready for an unknown certificate id changes
    /// nothing.
    pub fn on_ready(
        &mut self,
        certificate_id: &CertificateId,
        validator_id: ValidatorId,
        signature: &Vec<u8>,
    ) -> (events: Vec<ProtocolEvents>)
        requires
            old(self).wf(),
        ensures
            final(self).wf(),
            final(self).params == old(self).params,
            final(self).local_validator == old(self).local_validator,
            !old(self).known(certificate_id@) ==> *final(self) == *old(self) && events@.len()
                == 0,
            old(self).known(certificate_id@) ==> {
                let st0 = old(self).state_of(certificate_id@);
                let st1 = ready_transition(
                    st0,
                    validator_id,
                    old(self).params.ready_threshold,
                    old(self).params.delivery_threshold,
                );
                let amplified = !st0.ready_sent && st1.ready_sent;
                let delivered_now = !st0.delivered && st1.delivered;
                &&& final(self).states_map() =~= old(self).states_map().insert(
                    certificate_id@,
                    st1,
                )
                &&& events@.len() == (if amplified {
                    1int
                } else {
                    0int
                }) + (if delivered_now {
                    1int
                } else {
                    0int
                })
                &&& (amplified ==> (events@[0] matches ProtocolEvents::Ready {
                    certificate_id: cid,
                    signature: sig,
                    validator_id: vid,
                } && cid@ == certificate_id@ && sig@ == signature@ && vid == old(
                    self,
                ).local_validator))
                &&& (delivered_now ==> (events@[events@.len() - 1]
                    matches ProtocolEvents::CertificateDelivered { certificate } && certificate@
                    == st0.certificate))
            },
    {
        let mut events: Vec<ProtocolEvents> = Vec::new();
        let params = self.params;
        match self.find_state(certificate_id) {
            Some(j) => {
                let ghost pre = *self;
                let ghost st0 = self.states@[j as int]@;
                let mut emit_ready = false;
                let mut emit_delivered = false;
                let state = &mut self.states[j];
                if !state.delivered {
                    push_unique(&mut state.readies, validator_id);
                    if !state.ready_sent && state.readies.len() >= params.ready_threshold {
                        state.ready_sent = true;
                        emit_ready = true;
                    }
                    if state.readies.len() >= params.delivery_threshold {
                        state.delivered = true;
                        emit_delivered = true;
                    }
                }
                proof {
                    assert(self.states@[j as int]@ =~= ready_transition(
                        st0,
                        validator_id,
                        params.ready_threshold,
                        params.delivery_threshold,
                    ));
                    self.lemma_state_update(pre, j as int);
                }
                if emit_ready {
                    events.push(
                        ProtocolEvents::Ready {
                            certificate_id: *certificate_id,
                            signature: copy_vec(signature),
                            validator_id: self.local_validator,
                        },
                    );
                }
                if emit_delivered {
                    let certificate = self.states[j].certificate.duplicate();
                    events.push(ProtocolEvents::CertificateDelivered { certificate });
                }
                events
            },
            None => events,
        }
    }

    /// Drops the state of a certificate whose idle timer elapsed without a
    /// delivery quorum, reporting the failed broadcast. A delivered or
    /// unknown certificate id changes nothing.
    pub fn on_timeout(&mut self, certificate_id: &CertificateId) -> (events: Vec<ProtocolEvents>)
        requires
            old(self).wf(),
        ensures
            final(self).wf(),
            final(self).params == old(self).params,
            final(self).local_validator == old(self).local_validator,
            (!old(self).known(certificate_id@) || old(self).state_of(certificate_id@).delivered)
                ==> *final(self) == *old(self) && events@.len() == 0,
            (old(self).known(certificate_id@) && !old(self).state_of(
                certificate_id@,
            ).delivered) ==> {
                &&& final(self).states_map() =~= old(self).states_map().remove(certificate_id@)
                &&& events@.len() == 1
                &&& (events@[0] matches ProtocolEvents::BroadcastFailed { certificate_id: cid }
                    && cid@ == certificate_id@)
            },
    {
        let mut events: Vec<ProtocolEvents> = Vec::new();
        match self.find_state(certificate_id) {
            Some(j) => {
                if self.states[j].delivered {
                    return events;
                }
                let ghost pre = *self;
                self.states.swap_remove(j);
                proof {
                    self.lemma_state_remove(pre, j as int);
                }
                events.push(
                    ProtocolEvents::BroadcastFailed { certificate_id: *certificate_id },
                );
                events
            },
            None => events,
        }
    }

    /// After removing one state by swapping in the last, the map is the old
    /// map without that key.
    proof fn lemma_state_remove(&self, pre: DoubleEcho, j: int)
        requires
            pre.keys_distinct(),
            0 <= j < pre.states@.len(),
            self.states@ == pre.states@.update(j, pre.states@.last()).drop_last(),
        ensures
            self.keys_distinct(),
            forall|id2: Seq<u8>| self.known(id2) == (pre.known(id2) && id2
                != pre.states@[j].certificate.id@),
            self.states_map() =~= pre.states_map().remove(pre.states@[j].certificate.id@),
    {
        let key = pre.states@[j].certificate.id@;
        let n = pre.states@.len() - 1;
        assert forall|j2: int| #![trigger self.states@[j2]] 0 <= j2 < n implies self.states@[j2]
            == (if j2 == j {
            pre.states@[n as int]
        } else {
            pre.states@[j2]
        }) by {}
        assert forall|j1: int, j2: int| 0 <= j1 < j2 < self.states@.len() implies
            self.states@[j1].certificate.id@ != self.states@[j2].certificate.id@ by {}
        assert forall|id2: Seq<u8>| self.known(id2) == (pre.known(id2) && id2 != key) by {
            if self.known(id2) {
                let j2 = self.state_index(id2);
                if j2 == j {
                    assert(pre.states@[n as int].certificate.id@ == id2);
                    assert(pre.known(id2));
                    if id2 == key {
                        assert(j != n);
                        assert(pre.states@[j].certificate.id@
                            == pre.states@[n as int].certificate.id@);
                    }
                } else {
                    assert(pre.states@[j2].certificate.id@ == id2);
                    assert(pre.known(id2));
                    if id2 == key {
                        pre.lemma_state_lookup(j2);
                        pre.lemma_state_lookup(j);
                    }
                }
            }
            if pre.known(id2) && id2 != key {
                let j2 = pre.state_index(id2);
                assert(pre.states@[j2].certificate.id@ == id2);
                assert(j2 != j);
                if j2 == n {
                    if j < n {
                        assert(self.states@[j].certificate.id@ == id2);
                    }
                } else {
                    assert(self.states@[j2].certificate.id@ == id2);
                }
            }
        }
        assert forall|id2: Seq<u8>| #![auto] self.known(id2) implies self.state_of(id2)
            == pre.state_of(id2) by {
            let j2 = self.state_index(id2);
            assert(self.states@[j2].certificate.id@ == id2);
            if j2 == j {
                pre.lemma_state_lookup(n as int);
            } else {
                pre.lemma_state_lookup(j2);
            }
        }
        assert(self.states_map().dom() =~= pre.states_map().remove(key).dom());
        assert(self.states_map() =~= pre.states_map().remove(key));
    }

    /// Law: a delivered certificate was observed with at least
    /// `delivery_threshold` readies from pairwise distinct validators.
    pub proof fn lemma_delivered_has_ready_quorum(&self, id: Seq<u8>)
        requires
            self.wf(),
            self.known(id),
            self.state_of(id).delivered,
        ensures
            self.state_of(id).readies.no_duplicates(),
            self.state_of(id).readies.len() >= self.params.delivery_threshold,
    {
        let j = self.state_index(id);
        assert(state_wf(self.states@[j]@, self.params));
    }
}

} // verus!
