//! Identity and admission tiers.

use vstd::prelude::*;

use crate::crypto::blake3_hash::{blake3_of, identity_hash};

verus! {

/// Opaque 32-byte node identity derived from a public key.
#[derive(Clone, Copy, Debug, PartialEq, Eq, Hash)]
pub struct NodeId(pub [u8; 32]);

impl NodeId {
    /// Derive a node id from an identity public key: its BLAKE3 hash.
    pub fn from_pubkey(pubkey: &[u8]) -> (n: Self)
        ensures
            n.0@ == blake3_of(pubkey@),
    {
        NodeId(identity_hash(pubkey))
    }
}

/// Admission tier in the invitation Web-of-Trust.
#[derive(Clone, Copy, Debug, PartialEq, Eq, Structural)]
pub enum TrustTier {
    /// Hardcoded bootstrap admins.
    BootstrapAdmin,
    /// Relay operators.
    RelayOperator,
    /// Clients without relay duties.
    Client,
}

/// The name of each tier.
pub open spec fn tier_name(t: TrustTier) -> Seq<char> {
    match t {
        TrustTier::BootstrapAdmin => "bootstrap_admin"@,
        TrustTier::RelayOperator => "relay_operator"@,
        TrustTier::Client => "client"@,
    }
}

impl TrustTier {
    /// The tier's name.
    pub fn as_str(self) -> (s: &'static str)
        ensures
            s@ == tier_name(self),
    {
        match self {
            TrustTier::BootstrapAdmin => "bootstrap_admin",
            TrustTier::RelayOperator => "relay_operator",
            TrustTier::Client => "client",
        }
    }
}

} // verus!
