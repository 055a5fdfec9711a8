//! The layer that faces the callers: it authenticates them, holds each request to
//! the rules of its kind, hands it to the node, and reports failures by category.

use vstd::prelude::*;
use crate::errors::{ErrorView, ProtocolError, ServiceError};
use crate::messages::{AppendEntriesRequest, SnapshotMeta};
use crate::node::{
    BodyView, ForwardError, ForwardRequest, ForwardRequestBody, ForwardView, Handled, HandledView,
    MetaNode, NodeState,
};
use crate::protocol::{append_well_formed, AppendReply, SnapshotReply, VoteReply, VoteRequest};
use crate::state_machine::{records_store, records_valid, Record};
use crate::token::{issued, verified, AuthError, Claim, TokenService};
use crate::types::MetadataCommand;
use crate::wire::{basic_auth_of, read_credential, Credential, CredentialView};

verus! {

/// The one principal that a handshake accepts.
pub open spec fn root_user() -> Seq<char> {
    "root"@
}

/// How often a write that arrives at the service may be passed on to the leader.
pub const WRITE_HOPS: u64 = 1;

/// The answer to a `get`.
#[derive(Debug, PartialEq, Eq)]
pub struct GetReply {
    /// Whether the store holds the key.
    pub ok: bool,
    pub key: String,
    /// The value under the key; empty where the store does not hold it.
    pub value: String,
}

/// What a handshake with `credential` gives under `key`: a token for the root user, or
/// the reason why there is none.
pub open spec fn granted(key: Seq<u8>, credential: Option<CredentialView>) -> Result<
    Seq<u8>,
    ErrorView,
> {
    match credential {
        None => Err(ErrorView::Protocol(ProtocolError::Undecodable)),
        Some(c) => if c.username == root_user() {
            Ok(issued(key, root_user()))
        } else {
            Err(ErrorView::UnknownPrincipal(c.username))
        },
    }
}

/// What checking the token in `header` gives under `key`.
pub open spec fn checked(key: Seq<u8>, header: Option<Seq<u8>>) -> Result<Seq<char>, AuthError> {
    match header {
        None => Err(AuthError::Missing),
        Some(token) => verified(key, token),
    }
}

/// The failure that the service reports for a node's refusal, with what the node knew.
pub open spec fn refusal(node: NodeState, error: ForwardError) -> ErrorView {
    ErrorView::Forward { error, leader: node.engine.leader, term: node.engine.current_term }
}

/// What the service answers to a request that it hands to the node.
pub open spec fn dispatched(node: NodeState, req: ForwardView) -> Result<HandledView, ErrorView> {
    match node.handled(req) {
        Ok(h) => Ok(h),
        Err(e) => Err(refusal(node, e)),
    }
}

/// The bytes of a header, where the request has it.
pub open spec fn header_view(header: Option<&[u8]>) -> Option<Seq<u8>> {
    match header {
        Some(h) => Some(h@),
        None => None,
    }
}

/// A credential as plain values, where there is one.
pub open spec fn credential_view(credential: Option<Credential>) -> Option<CredentialView> {
    match credential {
        Some(c) => Some(c@),
        None => None,
    }
}

/// The service of one node.
pub struct MetaServiceImpl {
    pub token: TokenService,
    pub meta_node: MetaNode,
}

impl MetaServiceImpl {
    /// The key under which the service signs tokens.
    pub open spec fn key(&self) -> Seq<u8> {
        self.token.key()
    }

    /// The service of `meta_node`, signing tokens with `key`.
    pub fn create(meta_node: MetaNode, key: Vec<u8>) -> (r: Self)
        ensures
            r.meta_node == meta_node,
            r.key() == key@,
    {
        MetaServiceImpl { token: TokenService::new(key), meta_node }
    }

    /// Checks the bearer token of a request: the claim it attests to, `Missing`
    /// without a token, and otherwise what verifying it gives.
    pub fn check_token(&self, header: Option<&[u8]>) -> (r: Result<Claim, ServiceError>)
        ensures
            match r {
                Ok(claim) => checked(self.key(), header_view(header)) == Ok::<
                    Seq<char>,
                    AuthError,
                >(claim.username@),
                Err(e) => match checked(self.key(), header_view(header)) {
                    Err(a) => e@ == ErrorView::Auth(a),
                    Ok(_) => false,
                },
            },
    {
        match header {
            None => Err(ServiceError::Auth(AuthError::Missing)),
            Some(token) => match self.token.verify(token) {
                Ok(claim) => Ok(claim),
                Err(e) => Err(ServiceError::Auth(e)),
            },
        }
    }

    /// Answers a handshake whose first frame was read as `credential`: the root user
    /// gets one token; any other principal is refused by name; a frame that could not
    /// be read is refused as undecodable.
    pub fn grant(&self, credential: Option<Credential>) -> (r: Result<Vec<u8>, ServiceError>)
        ensures
            match r {
                Ok(token) => granted(self.key(), credential_view(credential)) == Ok::<
                    Seq<u8>,
                    ErrorView,
                >(token@),
                Err(e) => granted(self.key(), credential_view(credential)) == Err::<
                    Seq<u8>,
                    ErrorView,
                >(e@),
            },
    {
        match credential {
            None => Err(ServiceError::Protocol(ProtocolError::Undecodable)),
            Some(c) => {
                let root = "root".to_owned();
                if c.username == root {
                    Ok(self.token.issue(&Claim { username: root }))
                } else {
                    Err(ServiceError::UnknownPrincipal(c.username))
                }
            },
        }
    }

    /// Answers a handshake from the first frame of its stream. A stream without a
    /// frame is refused. Otherwise the frame is read as a basic-auth message and
    /// answered as `grant` says: with one token, after which the stream may close, or
    /// with a failure and no token.
    pub fn handshake(&self, first_frame: Option<&[u8]>) -> (r: Result<Vec<u8>, ServiceError>)
        ensures
            first_frame.is_none() ==> r.is_err() && r.unwrap_err()@ == ErrorView::Protocol(
                ProtocolError::MissingFrame,
            ),
            first_frame matches Some(payload) ==> match r {
                Ok(token) => granted(self.key(), basic_auth_of(payload@)) == Ok::<
                    Seq<u8>,
                    ErrorView,
                >(token@),
                Err(e) => granted(self.key(), basic_auth_of(payload@)) == Err::<Seq<u8>, ErrorView>(
                    e@,
                ),
            },
    {
        match first_frame {
            None => Err(ServiceError::Protocol(ProtocolError::MissingFrame)),
            Some(payload) => self.grant(read_credential(payload)),
        }
    }

    /// Hands a request to the node and reports a refusal with the leader and term
    /// that the node knew.
    fn dispatch(&mut self, req: ForwardRequest) -> (r: Result<Handled, ServiceError>)
        requires
            old(self).meta_node.wf(),
        ensures
            final(self).meta_node.wf(),
            final(self).key() == old(self).key(),
            final(self).meta_node@ == old(self).meta_node@.after_request(req@),
            match r {
                Ok(h) => dispatched(old(self).meta_node@, req@) == Ok::<HandledView, ErrorView>(
                    h@,
                ),
                Err(e) => dispatched(old(self).meta_node@, req@) == Err::<HandledView, ErrorView>(
                    e@,
                ),
            },
    {
        let status = self.meta_node.status();
        match self.meta_node.handle_forwardable_request(req) {
            Ok(h) => Ok(h),
            Err(error) => Err(
                ServiceError::Forward { error, leader: status.leader, term: status.term },
            ),
        }
    }

    /// Takes a client's write: the command goes to the node as a request that may be
    /// passed on to the leader once. No token is asked for.
    pub fn write(&mut self, cmd: MetadataCommand) -> (r: Result<Handled, ServiceError>)
        requires
            old(self).meta_node.wf(),
        ensures
            final(self).meta_node.wf(),
            final(self).key() == old(self).key(),
            final(self).meta_node@ == old(self).meta_node@.after_request(write_request(cmd@)),
            match r {
                Ok(h) => dispatched(old(self).meta_node@, write_request(cmd@)) == Ok::<
                    HandledView,
                    ErrorView,
                >(h@),
                Err(e) => dispatched(old(self).meta_node@, write_request(cmd@)) == Err::<
                    HandledView,
                    ErrorView,
                >(e@),
            },
    {
        self.dispatch(
            ForwardRequest { forward_to_leader: WRITE_HOPS, body: ForwardRequestBody::Write(cmd) },
        )
    }

    /// Takes a request that another node or an administrator passes on. It needs a
    /// token that verifies: without one the request is refused and nothing changes.
    pub fn forward(&mut self, header: Option<&[u8]>, req: ForwardRequest) -> (r: Result<
        Handled,
        ServiceError,
    >)
        requires
            old(self).meta_node.wf(),
        ensures
            final(self).meta_node.wf(),
            final(self).key() == old(self).key(),
            match checked(old(self).key(), header_view(header)) {
                Err(a) => final(self).meta_node@ == old(self).meta_node@ && r.is_err()
                    && r.unwrap_err()@ == ErrorView::Auth(a),
                Ok(_) => final(self).meta_node@ == old(self).meta_node@.after_request(req@)
                    && match r {
                    Ok(h) => dispatched(old(self).meta_node@, req@) == Ok::<
                        HandledView,
                        ErrorView,
                    >(h@),
                    Err(e) => dispatched(old(self).meta_node@, req@) == Err::<
                        HandledView,
                        ErrorView,
                    >(e@),
                },
            },
    {
        match self.check_token(header) {
            Err(e) => Err(e),
            Ok(_) => self.dispatch(req),
        }
    }

    /// Reads a key from this node's store. A missing key is no failure: the answer
    /// says so and carries an empty value.
    pub fn get(&self, key: String) -> (r: GetReply)
        requires
            self.meta_node.wf(),
        ensures
            r.key@ == key@,
            r.ok == self.meta_node@.store.contains_key(key@),
            r.value@ == if self.meta_node@.store.contains_key(key@) {
                self.meta_node@.store[key@].value
            } else {
                Seq::<char>::empty()
            },
    {
        match self.meta_node.store().get(&key) {
            Some(found) => GetReply { ok: true, key, value: found.1 },
            None => GetReply { ok: false, key, value: String::new() },
        }
    }

    /// Takes a leader's append-entries request. A request whose entries do not follow
    /// its `prev` without gaps is refused as malformed and changes nothing. Otherwise
    /// see `MetaNode::append_entries`.
    pub fn append_entries(&mut self, req: AppendEntriesRequest) -> (r: Result<
        AppendReply,
        ServiceError,
    >)
        requires
            old(self).meta_node.wf(),
        ensures
            final(self).meta_node.wf(),
            final(self).key() == old(self).key(),
            !append_well_formed(req@) ==> final(self).meta_node@ == old(self).meta_node@
                && r.is_err() && r.unwrap_err()@ == ErrorView::Protocol(ProtocolError::Malformed),
            append_well_formed(req@) ==> final(self).meta_node@ == (NodeState {
                engine: old(self).meta_node@.engine.appended(req@),
                ..old(self).meta_node@
            }) && r.is_ok() && r.unwrap() == old(self).meta_node@.engine.append_reply(req@),
    {
        if !req.is_well_formed() {
            return Err(ServiceError::Protocol(ProtocolError::Malformed));
        }
        Ok(self.meta_node.append_entries(req))
    }

    /// Takes a leader's snapshot. Records that cannot be a store's contents are
    /// refused as malformed and change nothing. Otherwise see
    /// `MetaNode::install_snapshot`.
    pub fn install_snapshot(&mut self, req: &SnapshotMeta, records: Vec<Record>) -> (r: Result<
        SnapshotReply,
        ServiceError,
    >)
        requires
            old(self).meta_node.wf(),
        ensures
            final(self).meta_node.wf(),
            final(self).key() == old(self).key(),
            !records_valid(records@) ==> final(self).meta_node@ == old(self).meta_node@
                && r.is_err() && r.unwrap_err()@ == ErrorView::Protocol(ProtocolError::Malformed),
            records_valid(records@) ==> final(self).meta_node@
                == old(self).meta_node@.snapshot_installed(req@, records_store(records@))
                && r.is_ok() && r.unwrap() == old(self).meta_node@.engine.snapshot_reply(req@),
    {
        match self.meta_node.install_snapshot(req, records) {
            Some(reply) => Ok(reply),
            None => Err(ServiceError::Protocol(ProtocolError::Malformed)),
        }
    }

    /// Answers a candidate's vote request: see `MetaNode::vote`.
    pub fn vote(&mut self, req: VoteRequest) -> (r: VoteReply)
        requires
            old(self).meta_node.wf(),
        ensures
            final(self).meta_node.wf(),
            final(self).key() == old(self).key(),
            final(self).meta_node@ == (NodeState {
                engine: old(self).meta_node@.engine.voted(req),
                ..old(self).meta_node@
            }),
            r == old(self).meta_node@.engine.vote_reply(req),
    {
        self.meta_node.vote(req)
    }
}

/// The request that the service makes of a client's write.
pub open spec fn write_request(cmd: crate::types::CommandView) -> ForwardView {
    ForwardView { forward_to_leader: WRITE_HOPS, body: BodyView::Write(cmd) }
}

} // verus!
