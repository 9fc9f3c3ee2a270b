//! What is known about the peers of one transfer.
use vstd::prelude::*;
use crate::messages::{Handshake, HandshakeError};
use crate::tracker::MetaData;

verus! {

/// The peers a tracker named for a transfer, and whether one has answered
/// the handshake.
pub struct PeerManager {
    pub peers: Vec<(String, u16)>,
    pub torrent: MetaData,
    pub handshake_received: bool,
}

impl PeerManager {
    /// A manager for `torrent` and the peers its tracker named.
    pub fn new(torrent: MetaData, peers: Vec<(String, u16)>) -> (r: Self)
        ensures
            r.peers == peers,
            r.torrent == torrent,
            !r.handshake_received,
    {
        PeerManager { peers, torrent, handshake_received: false }
    }

    /// The peer to connect to: the first one named.
    pub fn first_peer(&self) -> (r: Option<&(String, u16)>)
        ensures
            self.peers@.len() == 0 ==> r is None,
            self.peers@.len() > 0 ==> (r matches Some(p) && *p == self.peers@[0]),
    {
        if self.peers.len() == 0 {
            None
        } else {
            Some(&self.peers[0])
        }
    }

    /// Reads the peer's handshake reply; a full one marks the handshake done.
    pub fn record_handshake(&mut self, reply: &[u8]) -> (r: Result<Handshake, HandshakeError>)
        ensures
            final(self).peers == old(self).peers,
            final(self).torrent == old(self).torrent,
            reply@.len() >= 68 ==> (r matches Ok(h) && h.info_hash@ == reply@.subrange(28, 48)
                && h.peer_id@ == reply@.subrange(48, 68)) && final(self).handshake_received,
            reply@.len() < 68 ==> r == Err::<Handshake, HandshakeError>(
                HandshakeError::ShortHandshake,
            ) && final(self).handshake_received == old(self).handshake_received,
    {
        let h = Handshake::deserialize(reply)?;
        self.handshake_received = true;
        Ok(h)
    }

    /// Whether a peer has answered the handshake.
    pub fn finished_handshake(&self) -> (r: bool)
        ensures
            r == self.handshake_received,
    {
        self.handshake_received
    }
}

} // verus!
