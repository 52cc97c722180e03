//! The application context's protocol router: turns each engine event into
//! the outward actions the node must take. It holds no business state; echoes
//! and readies are published only by validator nodes.

use vstd::prelude::*;

use crate::double_echo::{ProtocolEvents, ValidatorId};
use crate::types::{Certificate, CertificateId};

verus! {

/// The three labelled topics of the gossip fabric.
#[derive(Clone, Copy, Debug, PartialEq, Eq, Structural)]
pub enum GossipTopic {
    /// `topos_gossip`: whole certificates under dissemination.
    Gossip,
    /// `topos_echo`: validators' echoes.
    Echo,
    /// `topos_ready`: validators' readies.
    Ready,
}

/// The payload published on a gossip topic.
pub enum DoubleEchoRequest {
    Gossip { certificate: Certificate },
    Echo { certificate_id: CertificateId, signature: Vec<u8>, validator_id: ValidatorId },
    Ready { certificate_id: CertificateId, signature: Vec<u8>, validator_id: ValidatorId },
}

/// One outward action the node must take for an engine event.
pub enum TceAction {
    /// Publish a request on a gossip topic.
    Publish { topic: GossipTopic, request: DoubleEchoRequest },
    /// Tell the API runtime whether the sample is stable.
    SetActiveSample { value: bool },
    /// Surface the stable-sample event to the node's user.
    NotifyStableSample,
    /// The engine died; shut the process down.
    Shutdown,
}

/// The router between the engine and the rest of the node.
pub struct AppContext {
    /// Whether this node is a validator; only validators publish echoes and
    /// readies.
    pub is_validator: bool,
}

impl AppContext {
    /// Routes one engine event to its outward actions:
    /// a stable sample activates the API and is surfaced; a gossip event is
    /// published whole; echoes and readies are published only when this node
    /// is a validator; a broadcast beginning, a failed broadcast, an already
    /// delivered certificate and a delivery itself ask for no network action
    /// here; the engine's death asks for shutdown.
    pub fn on_protocol_event(&self, event: ProtocolEvents) -> (actions: Vec<TceAction>)
        ensures
            match event {
                ProtocolEvents::StableSample => actions@.len() == 2 && (
                actions@[0] matches TceAction::SetActiveSample { value: true }) && (
                actions@[1] matches TceAction::NotifyStableSample),
                ProtocolEvents::Gossip { cert } => actions@.len() == 1 && (
                actions@[0] matches TceAction::Publish { topic, request } && topic
                    == GossipTopic::Gossip && (request matches DoubleEchoRequest::Gossip {
                    certificate,
                } && certificate@ == cert@)),
                ProtocolEvents::Echo { certificate_id, signature, validator_id } => if self
                    .is_validator {
                    actions@.len() == 1 && (actions@[0] matches TceAction::Publish {
                        topic,
                        request,
                    } && topic == GossipTopic::Echo && (request matches DoubleEchoRequest::Echo {
                        certificate_id: cid,
                        signature: sig,
                        validator_id: vid,
                    } && cid@ == certificate_id@ && sig@ == signature@ && vid == validator_id))
                } else {
                    actions@.len() == 0
                },
                ProtocolEvents::Ready { certificate_id, signature, validator_id } => if self
                    .is_validator {
                    actions@.len() == 1 && (actions@[0] matches TceAction::Publish {
                        topic,
                        request,
                    } && topic == GossipTopic::Ready && (request matches DoubleEchoRequest::Ready {
                        certificate_id: cid,
                        signature: sig,
                        validator_id: vid,
                    } && cid@ == certificate_id@ && sig@ == signature@ && vid == validator_id))
                } else {
                    actions@.len() == 0
                },
                ProtocolEvents::Die => actions@.len() == 1 && (
                actions@[0] matches TceAction::Shutdown),
                _ => actions@.len() == 0,
            },
    {
        let mut actions: Vec<TceAction> = Vec::new();
        match event {
            ProtocolEvents::StableSample => {
                actions.push(TceAction::SetActiveSample { value: true });
                actions.push(TceAction::NotifyStableSample);
            },
            ProtocolEvents::Gossip { cert } => {
                actions.push(
                    TceAction::Publish {
                        topic: GossipTopic::Gossip,
                        request: DoubleEchoRequest::Gossip { certificate: cert },
                    },
                );
            },
            ProtocolEvents::Echo { certificate_id, signature, validator_id } => {
                if self.is_validator {
                    actions.push(
                        TceAction::Publish {
                            topic: GossipTopic::Echo,
                            request: DoubleEchoRequest::Echo {
                                certificate_id,
                                signature,
                                validator_id,
                            },
                        },
                    );
                }
            },
            ProtocolEvents::Ready { certificate_id, signature, validator_id } => {
                if self.is_validator {
                    actions.push(
                        TceAction::Publish {
                            topic: GossipTopic::Ready,
                            request: DoubleEchoRequest::Ready {
                                certificate_id,
                                signature,
                                validator_id,
                            },
                        },
                    );
                }
            },
            ProtocolEvents::Die => {
                actions.push(TceAction::Shutdown);
            },
            ProtocolEvents::Broadcast { .. } => {},
            ProtocolEvents::AlreadyDelivered { .. } => {},
            ProtocolEvents::BroadcastFailed { .. } => {},
            ProtocolEvents::CertificateDelivered { .. } => {},
        }
        actions
    }
}

} // verus!
