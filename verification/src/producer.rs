//! The distributer's producer: the registry of processors, the readiness
//! flag, admission command handling, and the dispatch step that turns one
//! batch into one framed payload aimed at the next round-robin target.
//!
//! The shell around it owns the sockets: it reads admission buffers and
//! passes them to `handle_command`, probes endpoints and passes the verdict
//! to `finish_sweep`, and dials the address `produce` picks to write the
//! frame `produce` built.

use vstd::prelude::*;
use crate::codec::enc_batch;
use crate::control::{spec_command, parse_command, invalid_reply, invalid_response, Command};
use crate::flow::{Netflow, batch_model};
use crate::payload::{encode_chunk_payload, lz4_of};
use crate::registry::{Endpoint, EndpointModel, Registry, models};
use crate::wire::{build_chunk_frame, chunk_frame};

verus! {

/// Why a dispatch produced nothing.
#[derive(Debug, Clone, Copy, PartialEq, Eq, Structural)]
pub enum ProduceError {
    /// The registry was empty: readiness is withdrawn and the driver waits.
    NoProcessors,
    /// The compressed payload cannot be carried by a four-byte length field.
    PayloadTooLarge,
}

/// The producer state: membership plus the readiness flag.
pub struct Producer {
    registry: Registry,
    ready_to_produce: bool,
}

impl Producer {
    pub closed spec fn spec_registry(&self) -> Seq<EndpointModel> {
        self.registry@
    }

    pub closed spec fn spec_ready(&self) -> bool {
        self.ready_to_produce
    }

    pub closed spec fn spec_cursor(&self) -> int {
        self.registry.spec_cursor()
    }

    pub closed spec fn wf(&self) -> bool {
        self.registry.wf()
    }

    pub fn new() -> (r: Producer)
        ensures
            r.wf(),
            r.spec_registry().len() == 0,
            !r.spec_ready(),
            r.spec_cursor() == 0,
    {
        Producer { registry: Registry::new(), ready_to_produce: false }
    }

    /// Whether the driver may open a scan epoch.
    pub fn is_ready(&self) -> (r: bool)
        ensures
            r == self.spec_ready(),
    {
        self.ready_to_produce
    }

    /// A stable copy of the membership for probing or dispatch.
    pub fn snapshot(&self) -> (r: Vec<Endpoint>)
        ensures
            models(r@) == self.spec_registry(),
    {
        self.registry.snapshot()
    }

    /// Handles one admission buffer from the peer at `peer_ip`, exactly as
    /// the command grammar reads it: `connect <port>` registers
    /// `<peer_ip>:<port>` idempotently, `disconnect` removes every entry of
    /// that host, and anything else changes nothing and is answered with
    /// `invalid command`. Returns the reply to write back, if any.
    pub fn handle_command(&mut self, peer_ip: &String, buf: &[u8]) -> (r: Option<Vec<u8>>)
        requires
            old(self).wf(),
        ensures
            final(self).wf(),
            final(self).spec_ready() == old(self).spec_ready(),
            final(self).spec_cursor() == old(self).spec_cursor(),
            spec_command(buf@) matches Command::Connect(p) ==> (r is None && ({
                let m = (EndpointModel { ip: peer_ip@, port: p });
                &&& old(self).spec_registry().contains(m) ==> final(self).spec_registry() == old(self).spec_registry()
                &&& !old(self).spec_registry().contains(m) ==> final(self).spec_registry() == old(self).spec_registry().push(m)
            })),
            spec_command(buf@) is Disconnect ==> r is None && final(self).spec_registry() == old(self).spec_registry().filter(|m: EndpointModel| m.ip != peer_ip@),
            spec_command(buf@) is Invalid ==> (r matches Some(v) && v@ == invalid_response()
                && final(self).spec_registry() == old(self).spec_registry()),
    {
        match parse_command(buf) {
            Command::Connect(port) => {
                self.registry.add(Endpoint::new(peer_ip.clone(), port));
                None
            },
            Command::Disconnect => {
                self.registry.remove_host(peer_ip);
                None
            },
            Command::Invalid => Some(invalid_reply()),
        }
    }

    /// Ends one heartbeat sweep: the endpoints found unhealthy leave in one
    /// transaction, and afterwards the readiness flag holds exactly when the
    /// registry is non-empty.
    pub fn finish_sweep(&mut self, unhealthy: &Vec<Endpoint>)
        requires
            old(self).wf(),
        ensures
            final(self).wf(),
            final(self).spec_registry() == old(self).spec_registry().filter(
                |m: EndpointModel| !models(unhealthy@).contains(m),
            ),
            final(self).spec_ready() == (final(self).spec_registry().len() > 0),
            final(self).spec_cursor() == old(self).spec_cursor(),
    {
        self.registry.remove_many(unhealthy);
        self.ready_to_produce = self.registry.count() > 0;
    }

    /// One dispatch: serializes and compresses the batch, and on a non-empty
    /// registry picks the round-robin target and builds the frame to send on
    /// a fresh connection. On an empty registry it clears the readiness flag
    /// and fails; dispatch never evicts anyone. Success is owed whenever the
    /// registry is non-empty and the serialized batch, with the compressor's
    /// worst-case growth, still fits the frame's four-byte length field —
    /// every ordinary batch does.
    pub fn produce(&mut self, items: &Vec<Netflow>) -> (r: Result<(Endpoint, Vec<u8>),
        ProduceError>)
        requires
            old(self).wf(),
        ensures
            final(self).wf(),
            final(self).spec_registry() == old(self).spec_registry(),
            old(self).spec_registry().len() == 0 ==> (r matches Err(e) && e
                == ProduceError::NoProcessors && !final(self).spec_ready() && final(self).spec_cursor() == old(self).spec_cursor()),
            old(self).spec_registry().len() > 0 ==> final(self).spec_ready() == old(self).spec_ready(),
            old(self).spec_registry().len() > 0 && 24 + (enc_batch(batch_model(items@)).len()
                * 110) / 100 <= u32::MAX ==> r is Ok,
            old(self).spec_registry().len() > 0 && lz4_of(
                enc_batch(batch_model(items@)),
            ).len() <= u32::MAX ==> (r matches Ok((target, frame)) && target@ == old(self).spec_registry()[old(self).spec_cursor() % (old(self).spec_registry().len() as int)]
                && frame@ == chunk_frame(lz4_of(enc_batch(batch_model(items@)))) && final(self).spec_cursor() == (old(self).spec_cursor() % (old(self).spec_registry().len() as int)
                + 1) % (old(self).spec_registry().len() as int)),
            old(self).spec_registry().len() > 0 && lz4_of(enc_batch(batch_model(items@))).len()
                > u32::MAX ==> (r matches Err(e) && e == ProduceError::PayloadTooLarge && final(self).spec_cursor() == old(self).spec_cursor()),
    {
        let payload = encode_chunk_payload(items);
        if self.registry.count() == 0 {
            self.ready_to_produce = false;
            return Err(ProduceError::NoProcessors);
        }
        if payload.len() > u32::MAX as usize {
            return Err(ProduceError::PayloadTooLarge);
        }
        let frame = build_chunk_frame(&payload);
        match self.registry.next() {
            Some(target) => Ok((target, frame)),
            None => {
                // Unreachable: the registry was just seen non-empty and
                // nothing ran in between; `next` fails only when empty.
                proof {
                    assert(false);
                }
                Err(ProduceError::NoProcessors)
            },
        }
    }
}

} // verus!
