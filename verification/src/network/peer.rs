//! The version handshake of a peer connection, as a state machine.
use vstd::prelude::*;

verus! {

/// Lowest protocol version a peer may speak.
pub const MIN_PEER_VERSION: u32 = 70001;

#[derive(Debug, Clone, Copy, PartialEq, Eq, Structural)]
pub enum PeerState {
    Connecting,
    Connected,
    VersionSent,
    VersionReceived,
    Active,
    Disconnected,
}

/// Why a handshake message was refused.
#[derive(Debug, Clone, Copy, PartialEq, Eq)]
pub enum HandshakeError {
    /// The message is not expected in the current state.
    UnexpectedMessage(PeerState),
    /// The peer's protocol version is below `MIN_PEER_VERSION`.
    VersionTooLow(u32),
}

/// What the peer said about itself in its version message.
#[derive(Debug, Clone, Copy, PartialEq, Eq)]
pub struct VersionInfo {
    pub version: u32,
    pub services: u64,
    pub start_height: u32,
    pub nonce: u64,
}

/// A peer's handshake state and what it announced.
#[derive(Debug, Clone, Copy)]
pub struct Peer {
    pub id: u64,
    pub state: PeerState,
    pub version: Option<u32>,
    pub services: u64,
    pub start_height: u32,
    pub nonce: u64,
    pub inbound: bool,
}

impl Peer {
    /// An outbound peer being connected to.
    pub fn new(id: u64) -> (p: Self)
        ensures
            p.id == id,
            p.state == PeerState::Connecting,
            p.version is None,
            p.services == 0 && p.start_height == 0 && p.nonce == 0,
            !p.inbound,
    {
        Peer {
            id,
            state: PeerState::Connecting,
            version: None,
            services: 0,
            start_height: 0,
            nonce: 0,
            inbound: false,
        }
    }

    /// A peer that connected to us.
    pub fn new_inbound(id: u64) -> (p: Self)
        ensures
            p.id == id,
            p.state == PeerState::Connected,
            p.version is None,
            p.services == 0 && p.start_height == 0 && p.nonce == 0,
            p.inbound,
    {
        Peer {
            id,
            state: PeerState::Connected,
            version: None,
            services: 0,
            start_height: 0,
            nonce: 0,
            inbound: true,
        }
    }

    /// Our version message has been sent.
    pub fn version_sent(&mut self)
        ensures
            *final(self) == (Peer { state: PeerState::VersionSent, ..*old(self) }),
    {
        self.state = PeerState::VersionSent;
    }

    /// Takes the peer's version message: accepted only when connected or
    /// after our version went out, and when the peer's version is at least
    /// `MIN_PEER_VERSION`; then records what it announced and moves to
    /// `VersionReceived` (a verack is owed). Refused, nothing changes.
    pub fn handle_version(&mut self, msg: &VersionInfo) -> (r: Result<(), HandshakeError>)
        ensures
            old(self).state != PeerState::Connected && old(self).state != PeerState::VersionSent
                ==> r == Err::<(), HandshakeError>(HandshakeError::UnexpectedMessage(old(self).state))
                && *final(self) == *old(self),
            (old(self).state == PeerState::Connected || old(self).state == PeerState::VersionSent)
                && msg.version < MIN_PEER_VERSION ==> r == Err::<(), HandshakeError>(
                HandshakeError::VersionTooLow(msg.version),
            ) && *final(self) == *old(self),
            r is Ok <==> ((old(self).state == PeerState::Connected || old(self).state
                == PeerState::VersionSent) && msg.version >= MIN_PEER_VERSION),
            r is Ok ==> *final(self) == (Peer {
                state: PeerState::VersionReceived,
                version: Some(msg.version),
                services: msg.services,
                start_height: msg.start_height,
                nonce: msg.nonce,
                ..*old(self)
            }),
    {
        if self.state != PeerState::Connected && self.state != PeerState::VersionSent {
            return Err(HandshakeError::UnexpectedMessage(self.state));
        }
        if msg.version < MIN_PEER_VERSION {
            return Err(HandshakeError::VersionTooLow(msg.version));
        }
        self.version = Some(msg.version);
        self.services = msg.services;
        self.start_height = msg.start_height;
        self.nonce = msg.nonce;
        self.state = PeerState::VersionReceived;
        Ok(())
    }

    /// Takes the peer's verack: accepted only after its version, making the
    /// peer active.
    pub fn handle_verack(&mut self) -> (r: Result<(), HandshakeError>)
        ensures
            r is Ok <==> old(self).state == PeerState::VersionReceived,
            r is Ok ==> *final(self) == (Peer { state: PeerState::Active, ..*old(self) }),
            r is Err ==> r == Err::<(), HandshakeError>(HandshakeError::UnexpectedMessage(old(self).state))
                && *final(self) == *old(self),
    {
        if self.state != PeerState::VersionReceived {
            return Err(HandshakeError::UnexpectedMessage(self.state));
        }
        self.state = PeerState::Active;
        Ok(())
    }

    pub fn is_active(&self) -> (r: bool)
        ensures
            r == (self.state == PeerState::Active),
    {
        self.state == PeerState::Active
    }
}

/// The state after the peer's version message, when it is accepted.
pub open spec fn spec_after_version(state: PeerState, version: u32) -> Option<PeerState> {
    if (state == PeerState::Connected || state == PeerState::VersionSent) && version
        >= MIN_PEER_VERSION {
        Some(PeerState::VersionReceived)
    } else {
        None
    }
}

/// The state after the peer's verack, when it is accepted.
pub open spec fn spec_after_verack(state: PeerState) -> Option<PeerState> {
    if state == PeerState::VersionReceived {
        Some(PeerState::Active)
    } else {
        None
    }
}

/// A peer becomes active only by a verack that follows its accepted
/// version: a verack is accepted in no state but the one an accepted
/// version leads to, and from a fresh connection (either direction) a
/// version then a verack make it active.
pub proof fn lemma_handshake_order(s: PeerState, version: u32)
    ensures
        spec_after_verack(s) is Some ==> s == PeerState::VersionReceived,
        spec_after_version(s, version) matches Some(t) ==> t == PeerState::VersionReceived
            && spec_after_verack(t) == Some(PeerState::Active),
        spec_after_version(s, version) is Some ==> s != PeerState::Active,
        version >= MIN_PEER_VERSION ==> spec_after_version(PeerState::Connected, version) is Some
            && spec_after_version(PeerState::VersionSent, version) is Some,
{
}

} // verus!
