//! Peers: the declarative configuration of one peer, its live statistics,
//! the combined snapshot, and the builder that assembles a configuration
//! change for one peer.
use vstd::prelude::*;

use crate::ip::{endpoint_text, AllowedIp, Endpoint};
use crate::key::Key;
use crate::WgError;

verus! {

/// Live statistics of one peer, as the backend reports them: the last
/// handshake in seconds since the epoch (`None` when the peer never
/// connected) and the byte counters.
#[derive(Clone, Copy, Debug, PartialEq, Eq, Structural)]
pub struct PeerStats {
    pub last_handshake_time: Option<u64>,
    pub rx_bytes: u64,
    pub tx_bytes: u64,
}

/// Statistics of a peer that never exchanged traffic.
pub open spec fn fresh_stats() -> PeerStats {
    PeerStats { last_handshake_time: None, rx_bytes: 0, tx_bytes: 0 }
}

/// The persistent attributes of one peer, identified by its public key.
pub struct PeerConfig {
    pub public_key: Key,
    pub preshared_key: Option<Key>,
    pub endpoint: Option<Endpoint>,
    pub persistent_keepalive_interval: Option<u16>,
    pub allowed_ips: Vec<AllowedIp>,
}

/// The mathematical value of a `PeerConfig`.
#[verifier::ext_equal]
pub ghost struct PeerConfigV {
    pub public_key: Seq<u8>,
    pub preshared_key: Option<Seq<u8>>,
    pub endpoint: Option<Endpoint>,
    pub persistent_keepalive_interval: Option<u16>,
    pub allowed_ips: Seq<AllowedIp>,
}

pub open spec fn view_opt_key(o: Option<Key>) -> Option<Seq<u8>> {
    match o {
        Some(k) => Some(k@),
        None => None,
    }
}

impl View for PeerConfig {
    type V = PeerConfigV;

    open spec fn view(&self) -> PeerConfigV {
        PeerConfigV {
            public_key: self.public_key@,
            preshared_key: view_opt_key(self.preshared_key),
            endpoint: self.endpoint,
            persistent_keepalive_interval: self.persistent_keepalive_interval,
            allowed_ips: self.allowed_ips@,
        }
    }
}

impl PeerConfigV {
    /// Keys are 32 bytes and every allowed IP fits its address family.
    pub open spec fn wf(&self) -> bool {
        &&& self.public_key.len() == 32
        &&& (self.preshared_key matches Some(k) ==> k.len() == 32)
        &&& (forall|i: int| 0 <= i < self.allowed_ips.len() ==> (#[trigger] self.allowed_ips[i]).wf())
    }
}

/// A read-only snapshot of one peer: its configuration and statistics.
pub struct PeerInfo {
    pub config: PeerConfig,
    pub stats: PeerStats,
}

/// The mathematical value of a `PeerInfo`.
#[verifier::ext_equal]
pub ghost struct PeerInfoV {
    pub config: PeerConfigV,
    pub stats: PeerStats,
}

impl View for PeerInfo {
    type V = PeerInfoV;

    open spec fn view(&self) -> PeerInfoV {
        PeerInfoV { config: self.config@, stats: self.stats }
    }
}

/// Assembles the configuration change for one peer: the attributes to set,
/// whether its allowed-IP list is replaced or extended, and whether the
/// peer is removed instead.
pub struct PeerConfigBuilder {
    public_key: Key,
    preshared_key: Option<Key>,
    endpoint: Option<Endpoint>,
    persistent_keepalive_interval: Option<u16>,
    allowed_ips: Vec<AllowedIp>,
    replace_allowed_ips: bool,
    remove_me: bool,
}

/// The mathematical value of a `PeerConfigBuilder`.
#[verifier::ext_equal]
pub ghost struct PeerBuilderV {
    pub public_key: Seq<u8>,
    pub preshared_key: Option<Seq<u8>>,
    pub endpoint: Option<Endpoint>,
    pub persistent_keepalive_interval: Option<u16>,
    pub allowed_ips: Seq<AllowedIp>,
    pub replace_allowed_ips: bool,
    pub remove_me: bool,
}

impl View for PeerConfigBuilder {
    type V = PeerBuilderV;

    closed spec fn view(&self) -> PeerBuilderV {
        PeerBuilderV {
            public_key: self.public_key@,
            preshared_key: view_opt_key(self.preshared_key),
            endpoint: self.endpoint,
            persistent_keepalive_interval: self.persistent_keepalive_interval,
            allowed_ips: self.allowed_ips@,
            replace_allowed_ips: self.replace_allowed_ips,
            remove_me: self.remove_me,
        }
    }
}

impl PeerBuilderV {
    /// Keys are 32 bytes and every allowed IP fits its address family.
    pub open spec fn wf(&self) -> bool {
        &&& self.public_key.len() == 32
        &&& (self.preshared_key matches Some(k) ==> k.len() == 32)
        &&& (forall|i: int| 0 <= i < self.allowed_ips.len() ==> (#[trigger] self.allowed_ips[i]).wf())
    }
}

/// A copy of an optional key, holding the same bytes.
pub(crate) fn copy_opt_key(o: &Option<Key>) -> (r: Option<Key>)
    ensures
        view_opt_key(r) == view_opt_key(*o),
{
    match o {
        Some(k) => Some(k.duplicate()),
        None => None,
    }
}

/// A copy of an allowed-IP list.
pub(crate) fn copy_allowed_ips(v: &Vec<AllowedIp>) -> (r: Vec<AllowedIp>)
    ensures
        r@ == v@,
{
    let mut out: Vec<AllowedIp> = Vec::new();
    let mut i: usize = 0;
    while i < v.len()
        invariant
            i <= v@.len(),
            out@ == v@.subrange(0, i as int),
        decreases v@.len() - i,
    {
        out.push(v[i]);
        proof {
            assert(out@ =~= v@.subrange(0, i + 1));
        }
        i += 1;
    }
    proof {
        assert(v@.subrange(0, v@.len() as int) =~= v@);
    }
    out
}

impl PeerConfig {
    /// A value equal to this one.
    pub fn duplicate(&self) -> (r: PeerConfig)
        ensures
            r@ == self@,
    {
        let r = PeerConfig {
            public_key: self.public_key.duplicate(),
            preshared_key: copy_opt_key(&self.preshared_key),
            endpoint: self.endpoint,
            persistent_keepalive_interval: self.persistent_keepalive_interval,
            allowed_ips: copy_allowed_ips(&self.allowed_ips),
        };
        proof {
            assert(r@ =~= self@);
        }
        r
    }
}

impl PeerInfo {
    /// A value equal to this one.
    pub fn duplicate(&self) -> (r: PeerInfo)
        ensures
            r@ == self@,
    {
        let r = PeerInfo { config: self.config.duplicate(), stats: self.stats };
        proof {
            assert(r@ =~= self@);
        }
        r
    }
}

/// The peer a builder creates when its key is not yet on the device: the
/// built attributes, with statistics of a peer that never connected.
pub open spec fn peer_from_builder(b: PeerBuilderV) -> PeerInfoV {
    PeerInfoV {
        config: PeerConfigV {
            public_key: b.public_key,
            preshared_key: b.preshared_key,
            endpoint: b.endpoint,
            persistent_keepalive_interval: b.persistent_keepalive_interval,
            allowed_ips: b.allowed_ips,
        },
        stats: fresh_stats(),
    }
}

/// A builder applied on top of an existing peer: each set attribute
/// overwrites, an unset one is kept, and the allowed-IP list is replaced
/// or extended as the builder's flag says. Statistics are untouched.
pub open spec fn merge_peer(p: PeerInfoV, b: PeerBuilderV) -> PeerInfoV {
    PeerInfoV {
        config: PeerConfigV {
            public_key: p.config.public_key,
            preshared_key: if b.preshared_key is Some {
                b.preshared_key
            } else {
                p.config.preshared_key
            },
            endpoint: if b.endpoint is Some {
                b.endpoint
            } else {
                p.config.endpoint
            },
            persistent_keepalive_interval: if b.persistent_keepalive_interval is Some {
                b.persistent_keepalive_interval
            } else {
                p.config.persistent_keepalive_interval
            },
            allowed_ips: if b.replace_allowed_ips {
                b.allowed_ips
            } else {
                p.config.allowed_ips + b.allowed_ips
            },
        },
        stats: p.stats,
    }
}

impl PeerConfigBuilder {
    /// Whether this builder removes its peer instead of configuring it.
    pub fn is_remove(&self) -> (r: bool)
        ensures
            r == self@.remove_me,
    {
        self.remove_me
    }

    /// The fresh peer this builder creates.
    pub fn to_fresh_peer(&self) -> (r: PeerInfo)
        ensures
            r@ == peer_from_builder(self@),
    {
        let r = PeerInfo {
            config: PeerConfig {
                public_key: self.public_key.duplicate(),
                preshared_key: copy_opt_key(&self.preshared_key),
                endpoint: self.endpoint,
                persistent_keepalive_interval: self.persistent_keepalive_interval,
                allowed_ips: copy_allowed_ips(&self.allowed_ips),
            },
            stats: PeerStats { last_handshake_time: None, rx_bytes: 0, tx_bytes: 0 },
        };
        proof {
            assert(r@ =~= peer_from_builder(self@));
        }
        r
    }

    /// This builder applied on top of the existing peer `p`.
    pub fn merge_into(&self, p: &PeerInfo) -> (r: PeerInfo)
        ensures
            r@ == merge_peer(p@, self@),
    {
        let preshared_key = match &self.preshared_key {
            Some(k) => Some(k.duplicate()),
            None => copy_opt_key(&p.config.preshared_key),
        };
        let endpoint = match self.endpoint {
            Some(e) => Some(e),
            None => p.config.endpoint,
        };
        let persistent_keepalive_interval = match self.persistent_keepalive_interval {
            Some(v) => Some(v),
            None => p.config.persistent_keepalive_interval,
        };
        let allowed_ips = if self.replace_allowed_ips {
            copy_allowed_ips(&self.allowed_ips)
        } else {
            let mut base = copy_allowed_ips(&p.config.allowed_ips);
            let mut tail = copy_allowed_ips(&self.allowed_ips);
            base.append(&mut tail);
            base
        };
        let r = PeerInfo {
            config: PeerConfig {
                public_key: p.config.public_key.duplicate(),
                preshared_key,
                endpoint,
                persistent_keepalive_interval,
                allowed_ips,
            },
            stats: p.stats,
        };
        proof {
            assert(r@ =~= merge_peer(p@, self@));
        }
        r
    }

    /// Starts a change for the peer with this public key; nothing else set.
    pub fn new(public_key: Key) -> (r: PeerConfigBuilder)
        ensures
            r@ == (PeerBuilderV {
                public_key: public_key@,
                preshared_key: None,
                endpoint: None,
                persistent_keepalive_interval: None,
                allowed_ips: Seq::empty(),
                replace_allowed_ips: false,
                remove_me: false,
            }),
    {
        let r = PeerConfigBuilder {
            public_key,
            preshared_key: None,
            endpoint: None,
            persistent_keepalive_interval: None,
            allowed_ips: Vec::new(),
            replace_allowed_ips: false,
            remove_me: false,
        };
        proof {
            assert(r@.allowed_ips =~= Seq::<AllowedIp>::empty());
        }
        r
    }

    /// The public key the change is addressed to.
    pub fn public_key(&self) -> (r: &Key)
        ensures
            r@ == self@.public_key,
    {
        &self.public_key
    }

    /// Sets the preshared key; a later call overwrites an earlier one.
    pub fn set_preshared_key(self, key: Key) -> (r: PeerConfigBuilder)
        ensures
            r@ == (PeerBuilderV { preshared_key: Some(key@), ..self@ }),
    {
        PeerConfigBuilder { preshared_key: Some(key), ..self }
    }

    /// Parses `address:port` and sets it as the peer's endpoint; rejects
    /// any other text with `InvalidEndpoint`.
    pub fn set_endpoint(self, s: &str) -> (r: Result<PeerConfigBuilder, WgError>)
        ensures
            r matches Ok(b) ==> (b@.endpoint matches Some(e) && endpoint_text(s@, e) && b@
                == (PeerBuilderV { endpoint: b@.endpoint, ..self@ })),
            r matches Err(er) ==> er == WgError::InvalidEndpoint && (forall|e: Endpoint|
                !endpoint_text(s@, e)),
    {
        match Endpoint::parse(s) {
            Ok(e) => Ok(PeerConfigBuilder { endpoint: Some(e), ..self }),
            Err(er) => Err(er),
        }
    }

    /// Sets the keepalive interval in seconds.
    pub fn set_persistent_keepalive_interval(self, secs: u16) -> (r: PeerConfigBuilder)
        ensures
            r@ == (PeerBuilderV { persistent_keepalive_interval: Some(secs), ..self@ }),
    {
        PeerConfigBuilder { persistent_keepalive_interval: Some(secs), ..self }
    }

    /// Adds one allowed IP; additive over calls.
    pub fn add_allowed_ip(self, ip: AllowedIp) -> (r: PeerConfigBuilder)
        ensures
            r@ == (PeerBuilderV { allowed_ips: self@.allowed_ips.push(ip), ..self@ }),
    {
        let mut b = self;
        b.allowed_ips.push(ip);
        b
    }

    /// Adds several allowed IPs; additive over calls.
    pub fn add_allowed_ips(self, ips: &Vec<AllowedIp>) -> (r: PeerConfigBuilder)
        ensures
            r@ == (PeerBuilderV { allowed_ips: self@.allowed_ips + ips@, ..self@ }),
    {
        let mut b = self;
        let mut i: usize = 0;
        while i < ips.len()
            invariant
                i <= ips@.len(),
                b@ == (PeerBuilderV {
                    allowed_ips: self@.allowed_ips + ips@.subrange(0, i as int),
                    ..self@
                }),
            decreases ips@.len() - i,
        {
            let ghost pre = b@.allowed_ips;
            b.allowed_ips.push(ips[i]);
            proof {
                assert(b@.allowed_ips =~= self@.allowed_ips + ips@.subrange(0, i + 1));
            }
            i += 1;
        }
        proof {
            assert(self@.allowed_ips + ips@.subrange(0, ips@.len() as int) =~= self@.allowed_ips
                + ips@);
        }
        b
    }

    /// The allowed IPs in this change replace the peer's list instead of
    /// extending it.
    pub fn replace_allowed_ips(self) -> (r: PeerConfigBuilder)
        ensures
            r@ == (PeerBuilderV { replace_allowed_ips: true, ..self@ }),
    {
        PeerConfigBuilder { replace_allowed_ips: true, ..self }
    }

    /// Marks the peer for removal from the interface.
    pub fn remove(self) -> (r: PeerConfigBuilder)
        ensures
            r@ == (PeerBuilderV { remove_me: true, ..self@ }),
    {
        PeerConfigBuilder { remove_me: true, ..self }
    }
}

} // verus!
