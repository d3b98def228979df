//! Devices: the read-only snapshot of one interface, the partial update a
//! caller assembles against it, and the meaning of applying the update.
use vstd::prelude::*;

use crate::iface::InterfaceName;
use crate::key::Key;
use crate::peer::{
    merge_peer, peer_from_builder, view_opt_key, PeerBuilderV, PeerConfigBuilder, PeerInfo,
    PeerInfoV,
};

verus! {

/// A read-only snapshot of one interface: its keys, port, firewall mark,
/// peers, and the platform's alias for it.
pub struct Device {
    pub name: InterfaceName,
    pub public_key: Option<Key>,
    pub private_key: Option<Key>,
    pub fwmark: Option<u32>,
    pub listen_port: Option<u16>,
    pub peers: Vec<PeerInfo>,
    pub linked_name: Option<String>,
}

/// The mathematical value of a `Device`.
#[verifier::ext_equal]
pub ghost struct DeviceV {
    pub name: Seq<char>,
    pub public_key: Option<Seq<u8>>,
    pub private_key: Option<Seq<u8>>,
    pub fwmark: Option<u32>,
    pub listen_port: Option<u16>,
    pub peers: Seq<PeerInfoV>,
    pub linked_name: Option<Seq<char>>,
}

pub open spec fn view_opt_string(o: Option<String>) -> Option<Seq<char>> {
    match o {
        Some(s) => Some(s@),
        None => None,
    }
}

impl View for Device {
    type V = DeviceV;

    open spec fn view(&self) -> DeviceV {
        DeviceV {
            name: self.name@,
            public_key: view_opt_key(self.public_key),
            private_key: view_opt_key(self.private_key),
            fwmark: self.fwmark,
            listen_port: self.listen_port,
            peers: self.peers@.map_values(|p: PeerInfo| p@),
            linked_name: view_opt_string(self.linked_name),
        }
    }
}

/// The snapshot of an interface just brought up: nothing set, no peers.
pub open spec fn empty_device(name: Seq<char>) -> DeviceV {
    DeviceV {
        name,
        public_key: None,
        private_key: None,
        fwmark: None,
        listen_port: None,
        peers: Seq::empty(),
        linked_name: None,
    }
}

/// A partial change of desired device state: unset fields leave the live
/// value untouched; the peer list extends or, under `replace_peers`,
/// replaces the device's peers.
pub struct DeviceUpdate {
    public_key: Option<Key>,
    private_key: Option<Key>,
    fwmark: Option<u32>,
    listen_port: Option<u16>,
    peers: Vec<PeerConfigBuilder>,
    replace_peers: bool,
}

/// The mathematical value of a `DeviceUpdate`.
#[verifier::ext_equal]
pub ghost struct UpdateV {
    pub public_key: Option<Seq<u8>>,
    pub private_key: Option<Seq<u8>>,
    pub fwmark: Option<u32>,
    pub listen_port: Option<u16>,
    pub peers: Seq<PeerBuilderV>,
    pub replace_peers: bool,
}

impl View for DeviceUpdate {
    type V = UpdateV;

    closed spec fn view(&self) -> UpdateV {
        UpdateV {
            public_key: view_opt_key(self.public_key),
            private_key: view_opt_key(self.private_key),
            fwmark: self.fwmark,
            listen_port: self.listen_port,
            peers: self.peers@.map_values(|b: PeerConfigBuilder| b@),
            replace_peers: self.replace_peers,
        }
    }
}

/// The position of the first peer holding key `k`, or -1 when none does.
pub open spec fn peer_idx(ps: Seq<PeerInfoV>, k: Seq<u8>) -> int
    decreases ps.len(),
{
    if ps.len() == 0 {
        -1
    } else if ps[0].config.public_key == k {
        0
    } else {
        let r = peer_idx(ps.skip(1), k);
        if r == -1 {
            -1
        } else {
            r + 1
        }
    }
}

/// `peer_idx` finds the first peer with the key, and -1 exactly when no
/// peer has it.
pub proof fn lemma_peer_idx(ps: Seq<PeerInfoV>, k: Seq<u8>)
    ensures
        peer_idx(ps, k) == -1 ==> forall|j: int|
            0 <= j < ps.len() ==> (#[trigger] ps[j]).config.public_key != k,
        peer_idx(ps, k) != -1 ==> 0 <= peer_idx(ps, k) < ps.len() && ps[peer_idx(
            ps,
            k,
        )].config.public_key == k && forall|j: int|
            0 <= j < peer_idx(ps, k) ==> (#[trigger] ps[j]).config.public_key != k,
    decreases ps.len(),
{
    if ps.len() > 0 && ps[0].config.public_key != k {
        let t = ps.skip(1);
        lemma_peer_idx(t, k);
        assert forall|j: int| 1 <= j < ps.len() implies ps[j] == t[j - 1] by {
            assert(t[j - 1] == ps[j]);
        }
        let r = peer_idx(t, k);
        if r == -1 {
            assert forall|j: int|
                0 <= j < ps.len() implies (#[trigger] ps[j]).config.public_key != k by {
                if j >= 1 {
                    assert(t[j - 1].config.public_key != k);
                }
            }
        } else {
            assert(ps[r + 1] == t[r]);
            assert forall|j: int|
                0 <= j < r + 1 implies (#[trigger] ps[j]).config.public_key != k by {
                if j >= 1 {
                    assert(t[j - 1].config.public_key != k);
                }
            }
        }
    }
}

/// One builder applied to a peer list: a removal directive takes its peer
/// out (a no-op when absent); otherwise the builder merges into its peer,
/// or appends it as a fresh one.
pub open spec fn apply_one(ps: Seq<PeerInfoV>, b: PeerBuilderV) -> Seq<PeerInfoV> {
    let i = peer_idx(ps, b.public_key);
    if b.remove_me {
        if i == -1 {
            ps
        } else {
            ps.remove(i)
        }
    } else if i == -1 {
        ps.push(peer_from_builder(b))
    } else {
        ps.update(i, merge_peer(ps[i], b))
    }
}

/// An update's builders applied in order. With one public key named twice,
/// the later builder lands on the peer the earlier one made or changed, so
/// per attribute the last set value wins.
pub open spec fn apply_peers(ps: Seq<PeerInfoV>, bs: Seq<PeerBuilderV>) -> Seq<PeerInfoV>
    decreases bs.len(),
{
    if bs.len() == 0 {
        ps
    } else {
        apply_peers(apply_one(ps, bs[0]), bs.skip(1))
    }
}

pub open spec fn opt_or<T>(a: Option<T>, b: Option<T>) -> Option<T> {
    if a is Some {
        a
    } else {
        b
    }
}

/// The device state after an update: each set scalar overwrites, each
/// unset one is kept; the peer list starts empty under `replace_peers` and
/// from the device's peers otherwise, and the builders apply in order.
pub open spec fn spec_apply_update(d: DeviceV, u: UpdateV) -> DeviceV {
    DeviceV {
        name: d.name,
        public_key: opt_or(u.public_key, d.public_key),
        private_key: opt_or(u.private_key, d.private_key),
        fwmark: opt_or(u.fwmark, d.fwmark),
        listen_port: opt_or(u.listen_port, d.listen_port),
        peers: apply_peers(
            if u.replace_peers {
                Seq::empty()
            } else {
                d.peers
            },
            u.peers,
        ),
        linked_name: d.linked_name,
    }
}

/// The public keys present in a peer list.
pub open spec fn peer_keys(ps: Seq<PeerInfoV>) -> Set<Seq<u8>> {
    Set::new(
        |k: Seq<u8>| exists|i: int| 0 <= i < ps.len() && (#[trigger] ps[i]).config.public_key == k,
    )
}

/// The public keys an update's builders are addressed to.
pub open spec fn builder_keys(bs: Seq<PeerBuilderV>) -> Set<Seq<u8>> {
    Set::new(|k: Seq<u8>| exists|i: int| 0 <= i < bs.len() && (#[trigger] bs[i]).public_key == k)
}

proof fn lemma_keys_apply_one(ps: Seq<PeerInfoV>, b: PeerBuilderV)
    requires
        !b.remove_me,
    ensures
        peer_keys(apply_one(ps, b)) =~= peer_keys(ps).insert(b.public_key),
{
    lemma_peer_idx(ps, b.public_key);
    let i = peer_idx(ps, b.public_key);
    let rs = apply_one(ps, b);
    if i == -1 {
        assert(rs == ps.push(peer_from_builder(b)));
        assert forall|k: Seq<u8>| peer_keys(rs).contains(k) implies peer_keys(ps).insert(
            b.public_key,
        ).contains(k) by {
            let j = choose|j: int| 0 <= j < rs.len() && (#[trigger] rs[j]).config.public_key == k;
            if j < ps.len() {
                assert(ps[j].config.public_key == k);
            }
        }
        assert forall|k: Seq<u8>| peer_keys(ps).insert(b.public_key).contains(k) implies peer_keys(
            rs,
        ).contains(k) by {
            if k == b.public_key {
                assert(rs[ps.len() as int].config.public_key == k);
            } else {
                let j = choose|j: int|
                    0 <= j < ps.len() && (#[trigger] ps[j]).config.public_key == k;
                assert(rs[j].config.public_key == k);
            }
        }
    } else {
        assert(rs == ps.update(i, merge_peer(ps[i], b)));
        assert(rs[i].config.public_key == b.public_key);
        assert forall|k: Seq<u8>| peer_keys(rs).contains(k) implies peer_keys(ps).insert(
            b.public_key,
        ).contains(k) by {
            let j = choose|j: int| 0 <= j < rs.len() && (#[trigger] rs[j]).config.public_key == k;
            if j != i {
                assert(ps[j].config.public_key == k);
            }
        }
        assert forall|k: Seq<u8>| peer_keys(ps).insert(b.public_key).contains(k) implies peer_keys(
            rs,
        ).contains(k) by {
            if k == b.public_key {
                assert(rs[i].config.public_key == k);
            } else {
                let j = choose|j: int|
                    0 <= j < ps.len() && (#[trigger] ps[j]).config.public_key == k;
                assert(j != i) by {
                    assert(ps[i].config.public_key == b.public_key);
                }
                assert(rs[j].config.public_key == k);
            }
        }
    }
}

proof fn lemma_keys_apply_peers(ps: Seq<PeerInfoV>, bs: Seq<PeerBuilderV>)
    requires
        forall|i: int| 0 <= i < bs.len() ==> !(#[trigger] bs[i]).remove_me,
    ensures
        peer_keys(apply_peers(ps, bs)) =~= peer_keys(ps).union(builder_keys(bs)),
    decreases bs.len(),
{
    if bs.len() == 0 {
        assert(builder_keys(bs) =~= Set::<Seq<u8>>::empty());
        assert(peer_keys(ps).union(Set::<Seq<u8>>::empty()) =~= peer_keys(ps));
    } else {
        let b0 = bs[0];
        let rest = bs.skip(1);
        assert(forall|i: int| 0 <= i < rest.len() ==> #[trigger] rest[i] == bs[i + 1]);
        lemma_keys_apply_one(ps, b0);
        lemma_keys_apply_peers(apply_one(ps, b0), rest);
        assert(builder_keys(bs) =~= builder_keys(rest).insert(b0.public_key)) by {
            assert forall|k: Seq<u8>| builder_keys(bs).contains(k) implies builder_keys(
                rest,
            ).insert(b0.public_key).contains(k) by {
                let j = choose|j: int|
                    0 <= j < bs.len() && (#[trigger] bs[j]).public_key == k;
                if j > 0 {
                    assert(rest[j - 1].public_key == k);
                }
            }
            assert forall|k: Seq<u8>| builder_keys(rest).insert(b0.public_key).contains(k)
                implies builder_keys(bs).contains(k) by {
                if k == b0.public_key {
                    assert(bs[0].public_key == k);
                } else {
                    let j = choose|j: int|
                        0 <= j < rest.len() && (#[trigger] rest[j]).public_key == k;
                    assert(bs[j + 1].public_key == k);
                }
            }
        }
        assert(peer_keys(apply_peers(ps, bs)) =~= peer_keys(ps).union(builder_keys(bs)));
    }
}

/// An update with `replace_peers` and no removal directives leaves the
/// device with exactly the update's peers, by public key.
pub proof fn lemma_replace_peers_exact(d: DeviceV, u: UpdateV)
    requires
        u.replace_peers,
        forall|i: int| 0 <= i < u.peers.len() ==> !(#[trigger] u.peers[i]).remove_me,
    ensures
        peer_keys(spec_apply_update(d, u).peers) =~= builder_keys(u.peers),
{
    lemma_keys_apply_peers(Seq::empty(), u.peers);
    assert(peer_keys(Seq::<PeerInfoV>::empty()) =~= Set::<Seq<u8>>::empty());
    assert(Set::<Seq<u8>>::empty().union(builder_keys(u.peers)) =~= builder_keys(u.peers));
}

/// An update without `replace_peers` holding one builder for a key not on
/// the device leaves every existing peer untouched and appends the new
/// peer, with the statistics of a peer that never connected.
pub proof fn lemma_add_single_new_peer(d: DeviceV, u: UpdateV)
    requires
        !u.replace_peers,
        u.peers.len() == 1,
        !u.peers[0].remove_me,
        peer_idx(d.peers, u.peers[0].public_key) == -1,
    ensures
        spec_apply_update(d, u).peers == d.peers.push(peer_from_builder(u.peers[0])),
{
    assert(u.peers.skip(1) =~= Seq::<PeerBuilderV>::empty());
    assert(apply_peers(d.peers, u.peers) == apply_peers(apply_one(d.peers, u.peers[0]), u.peers.skip(1)));
    assert(apply_one(d.peers, u.peers[0]) == d.peers.push(peer_from_builder(u.peers[0])));
}

impl DeviceUpdate {
    /// An empty patch: applying it alone changes nothing but creates the
    /// interface when absent.
    pub fn new() -> (r: DeviceUpdate)
        ensures
            r@ == (UpdateV {
                public_key: None,
                private_key: None,
                fwmark: None,
                listen_port: None,
                peers: Seq::empty(),
                replace_peers: false,
            }),
    {
        let r = DeviceUpdate {
            public_key: None,
            private_key: None,
            fwmark: None,
            listen_port: None,
            peers: Vec::new(),
            replace_peers: false,
        };
        proof {
            assert(r@.peers =~= Seq::<PeerBuilderV>::empty());
        }
        r
    }

    /// Sets the interface public key; a later call overwrites.
    pub fn set_public_key(self, key: Key) -> (r: DeviceUpdate)
        ensures
            r@ == (UpdateV { public_key: Some(key@), ..self@ }),
    {
        DeviceUpdate { public_key: Some(key), ..self }
    }

    /// Sets the interface private key; a later call overwrites.
    pub fn set_private_key(self, key: Key) -> (r: DeviceUpdate)
        ensures
            r@ == (UpdateV { private_key: Some(key@), ..self@ }),
    {
        DeviceUpdate { private_key: Some(key), ..self }
    }

    /// Sets the firewall mark; a later call overwrites.
    pub fn set_fwmark(self, fwmark: u32) -> (r: DeviceUpdate)
        ensures
            r@ == (UpdateV { fwmark: Some(fwmark), ..self@ }),
    {
        DeviceUpdate { fwmark: Some(fwmark), ..self }
    }

    /// Sets the listening port; a later call overwrites.
    pub fn set_listen_port(self, port: u16) -> (r: DeviceUpdate)
        ensures
            r@ == (UpdateV { listen_port: Some(port), ..self@ }),
    {
        DeviceUpdate { listen_port: Some(port), ..self }
    }

    /// The update's peers replace the device's peer list instead of
    /// extending it.
    pub fn replace_peers(self) -> (r: DeviceUpdate)
        ensures
            r@ == (UpdateV { replace_peers: true, ..self@ }),
    {
        DeviceUpdate { replace_peers: true, ..self }
    }

    /// Appends one peer change; duplicates by public key are kept, and on
    /// apply the later one's set attributes win.
    pub fn add_peer(self, peer: PeerConfigBuilder) -> (r: DeviceUpdate)
        ensures
            r@ == (UpdateV { peers: self@.peers.push(peer@), ..self@ }),
    {
        let mut u = self;
        u.peers.push(peer);
        proof {
            assert(u@.peers =~= self@.peers.push(peer@));
        }
        u
    }

    /// Appends several peer changes, in order.
    pub fn add_peers(self, peers: Vec<PeerConfigBuilder>) -> (r: DeviceUpdate)
        ensures
            r@ == (UpdateV {
                peers: self@.peers + peers@.map_values(|b: PeerConfigBuilder| b@),
                ..self@
            }),
    {
        let ghost all = peers@.map_values(|b: PeerConfigBuilder| b@);
        let mut u = self;
        let mut rest = peers;
        while rest.len() > 0
            invariant
                u@.public_key == self@.public_key,
                u@.private_key == self@.private_key,
                u@.fwmark == self@.fwmark,
                u@.listen_port == self@.listen_port,
                u@.replace_peers == self@.replace_peers,
                u@.peers + rest@.map_values(|b: PeerConfigBuilder| b@) == self@.peers + all,
            decreases rest@.len(),
        {
            let ghost old_u = u@.peers;
            let ghost old_rest = rest@;
            let b = rest.remove(0);
            u.peers.push(b);
            proof {
                assert(old_rest.map_values(|x: PeerConfigBuilder| x@)[0] == b@);
                assert(rest@.map_values(|x: PeerConfigBuilder| x@) =~= old_rest.map_values(
                    |x: PeerConfigBuilder| x@,
                ).skip(1));
                assert(u@.peers =~= old_u.push(b@));
                assert(u@.peers + rest@.map_values(|x: PeerConfigBuilder| x@) =~= old_u
                    + old_rest.map_values(|x: PeerConfigBuilder| x@));
            }
        }
        proof {
            assert(rest@.map_values(|b: PeerConfigBuilder| b@) =~= Seq::<PeerBuilderV>::empty());
            assert(u@.peers =~= u@.peers + rest@.map_values(|b: PeerConfigBuilder| b@));
            assert(u@ =~= (UpdateV { peers: self@.peers + all, ..self@ }));
        }
        u
    }

    /// Appends a removal directive for the peer with this public key.
    pub fn remove_peer_by_key(self, public_key: &Key) -> (r: DeviceUpdate)
        ensures
            r@ == (UpdateV {
                peers: self@.peers.push(
                    PeerBuilderV {
                        public_key: public_key@,
                        preshared_key: None,
                        endpoint: None,
                        persistent_keepalive_interval: None,
                        allowed_ips: Seq::empty(),
                        replace_allowed_ips: false,
                        remove_me: true,
                    },
                ),
                ..self@
            }),
    {
        self.add_peer(PeerConfigBuilder::new(public_key.duplicate()).remove())
    }
}

/// The position of the first peer in `ps` holding `k`, as `peer_idx` gives
/// it.
pub(crate) fn find_peer(ps: &Vec<PeerInfo>, k: &Key) -> (r: Option<usize>)
    ensures
        r matches Some(i) ==> peer_idx(ps@.map_values(|p: PeerInfo| p@), k@) == i && i < ps@.len(),
        r is None ==> peer_idx(ps@.map_values(|p: PeerInfo| p@), k@) == -1,
{
    let ghost vps = ps@.map_values(|p: PeerInfo| p@);
    proof {
        lemma_peer_idx(vps, k@);
    }
    let mut i: usize = 0;
    while i < ps.len()
        invariant
            i <= ps@.len(),
            vps == ps@.map_values(|p: PeerInfo| p@),
            forall|j: int| 0 <= j < i ==> (#[trigger] vps[j]).config.public_key != k@,
        decreases ps@.len() - i,
    {
        if ps[i].config.public_key.equals(k) {
            proof {
                lemma_peer_idx(vps, k@);
                assert(vps[i as int].config.public_key == k@);
                let r = peer_idx(vps, k@);
                if r == -1 {
                    assert(vps[i as int].config.public_key != k@);
                } else {
                    if r < i {
                        assert(vps[r].config.public_key == k@);
                        assert(vps[r].config.public_key != k@);
                    }
                    if r > i {
                        assert(vps[i as int].config.public_key != k@);
                    }
                }
                assert(r == i);
            }
            return Some(i);
        }
        i += 1;
    }
    proof {
        if peer_idx(vps, k@) != -1 {
            assert(vps[peer_idx(vps, k@)].config.public_key == k@);
        }
    }
    None
}

impl Device {
    /// The snapshot of an interface just brought up under `name`.
    pub fn new_empty(name: InterfaceName) -> (r: Device)
        ensures
            r@ == empty_device(name@),
    {
        let r = Device {
            name,
            public_key: None,
            private_key: None,
            fwmark: None,
            listen_port: None,
            peers: Vec::new(),
            linked_name: None,
        };
        proof {
            assert(r@ =~= empty_device(r.name@));
        }
        r
    }

    /// A value equal to this one.
    pub fn duplicate(&self) -> (r: Device)
        ensures
            r@ == self@,
    {
        let mut peers: Vec<PeerInfo> = Vec::new();
        let mut i: usize = 0;
        while i < self.peers.len()
            invariant
                i <= self.peers@.len(),
                peers@.len() == i,
                forall|j: int| 0 <= j < i ==> (#[trigger] peers@[j])@ == self.peers@[j]@,
            decreases self.peers@.len() - i,
        {
            peers.push(self.peers[i].duplicate());
            i += 1;
        }
        let linked_name = match &self.linked_name {
            Some(s) => Some(s.clone()),
            None => None,
        };
        let r = Device {
            name: self.name.duplicate(),
            public_key: crate::peer::copy_opt_key(&self.public_key),
            private_key: crate::peer::copy_opt_key(&self.private_key),
            fwmark: self.fwmark,
            listen_port: self.listen_port,
            peers,
            linked_name,
        };
        proof {
            assert(r.peers@.map_values(|p: PeerInfo| p@) =~= self.peers@.map_values(
                |p: PeerInfo| p@,
            ));
            assert(r@ =~= self@);
        }
        r
    }

    /// This snapshot with `u` applied, as `spec_apply_update` says.
    pub fn apply_update(&self, u: &DeviceUpdate) -> (r: Device)
        ensures
            r@ == spec_apply_update(self@, u@),
    {
        let ghost base = if u@.replace_peers {
            Seq::<PeerInfoV>::empty()
        } else {
            self@.peers
        };
        let mut peers: Vec<PeerInfo> = if u.replace_peers {
            Vec::new()
        } else {
            let d = self.duplicate();
            d.peers
        };
        proof {
            assert(peers@.map_values(|p: PeerInfo| p@) =~= base);
            assert(u@.peers.skip(0) =~= u@.peers);
        }
        let mut bi: usize = 0;
        while bi < u.peers.len()
            invariant
                bi <= u.peers@.len(),
                u@.peers == u.peers@.map_values(|b: PeerConfigBuilder| b@),
                apply_peers(peers@.map_values(|p: PeerInfo| p@), u@.peers.skip(bi as int))
                    == apply_peers(base, u@.peers),
            decreases u.peers@.len() - bi,
        {
            let ghost cur = peers@.map_values(|p: PeerInfo| p@);
            let ghost rest = u@.peers.skip(bi as int);
            let b = &u.peers[bi];
            proof {
                assert(rest.len() > 0);
                assert(rest[0] == b@);
                assert(rest.skip(1) =~= u@.peers.skip(bi + 1));
                assert(apply_peers(cur, rest) == apply_peers(apply_one(cur, b@), rest.skip(1)));
            }
            match find_peer(&peers, b.public_key()) {
                Some(i) => {
                    if b.is_remove() {
                        peers.remove(i);
                        proof {
                            assert(peers@.map_values(|p: PeerInfo| p@) =~= cur.remove(i as int));
                        }
                    } else {
                        let merged = b.merge_into(&peers[i]);
                        peers.remove(i);
                        peers.insert(i, merged);
                        proof {
                            assert(peers@.map_values(|p: PeerInfo| p@) =~= cur.update(
                                i as int,
                                merge_peer(cur[i as int], b@),
                            ));
                        }
                    }
                },
                None => {
                    if !b.is_remove() {
                        peers.push(b.to_fresh_peer());
                        proof {
                            assert(peers@.map_values(|p: PeerInfo| p@) =~= cur.push(
                                peer_from_builder(b@),
                            ));
                        }
                    }
                },
            }
            proof {
                assert(peers@.map_values(|p: PeerInfo| p@) == apply_one(cur, b@));
            }
            bi += 1;
        }
        proof {
            assert(u@.peers.skip(u.peers@.len() as int) =~= Seq::<PeerBuilderV>::empty());
        }
        let public_key = match &u.public_key {
            Some(k) => Some(k.duplicate()),
            None => crate::peer::copy_opt_key(&self.public_key),
        };
        let private_key = match &u.private_key {
            Some(k) => Some(k.duplicate()),
            None => crate::peer::copy_opt_key(&self.private_key),
        };
        let fwmark = match u.fwmark {
            Some(v) => Some(v),
            None => self.fwmark,
        };
        let listen_port = match u.listen_port {
            Some(v) => Some(v),
            None => self.listen_port,
        };
        let linked_name = match &self.linked_name {
            Some(s) => Some(s.clone()),
            None => None,
        };
        let r = Device {
            name: self.name.duplicate(),
            public_key,
            private_key,
            fwmark,
            listen_port,
            peers,
            linked_name,
        };
        proof {
            assert(r@ =~= spec_apply_update(self@, u@));
        }
        r
    }
}

} // verus!
