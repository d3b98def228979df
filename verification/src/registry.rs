//! The interface registry: the state a WireGuard backend exposes, as this
//! library's contracts describe it. An interface is absent or present; a
//! lookup or a deletion of an absent interface fails with `NotFound`; an
//! update applied to an absent interface creates it.
use vstd::prelude::*;

use crate::device::{
    apply_one, apply_peers, empty_device, find_peer, peer_idx, spec_apply_update, Device,
    DeviceUpdate, DeviceV, UpdateV,
};
use crate::iface::InterfaceName;
use crate::key::Key;
use crate::peer::{PeerBuilderV, PeerConfigBuilder};
use crate::WgError;

verus! {

/// An in-process registry of interfaces, one device snapshot per name.
pub struct InterfaceRegistry {
    devices: Vec<Device>,
}

impl View for InterfaceRegistry {
    type V = Seq<DeviceV>;

    closed spec fn view(&self) -> Seq<DeviceV> {
        self.devices@.map_values(|d: Device| d@)
    }
}

/// The position of the first device named `name`, or -1 when none is.
pub open spec fn dev_idx(ds: Seq<DeviceV>, name: Seq<char>) -> int
    decreases ds.len(),
{
    if ds.len() == 0 {
        -1
    } else if ds[0].name == name {
        0
    } else {
        let r = dev_idx(ds.skip(1), name);
        if r == -1 {
            -1
        } else {
            r + 1
        }
    }
}

/// Whether an interface of this name is present.
pub open spec fn has_interface(ds: Seq<DeviceV>, name: Seq<char>) -> bool {
    exists|i: int| 0 <= i < ds.len() && (#[trigger] ds[i]).name == name
}

/// `dev_idx` finds the first device of the name, and -1 exactly when the
/// name is absent.
pub proof fn lemma_dev_idx(ds: Seq<DeviceV>, name: Seq<char>)
    ensures
        dev_idx(ds, name) == -1 <==> !has_interface(ds, name),
        dev_idx(ds, name) != -1 ==> 0 <= dev_idx(ds, name) < ds.len() && ds[dev_idx(
            ds,
            name,
        )].name == name && forall|j: int|
            0 <= j < dev_idx(ds, name) ==> (#[trigger] ds[j]).name != name,
    decreases ds.len(),
{
    if ds.len() > 0 && ds[0].name != name {
        let t = ds.skip(1);
        lemma_dev_idx(t, name);
        assert forall|j: int| 1 <= j < ds.len() implies ds[j] == t[j - 1] by {
            assert(t[j - 1] == ds[j]);
        }
        let r = dev_idx(t, name);
        if r == -1 {
            assert forall|j: int| 0 <= j < ds.len() implies (#[trigger] ds[j]).name != name by {
                if j >= 1 {
                    assert(t[j - 1].name != name);
                }
            }
        } else {
            assert(ds[r + 1] == t[r]);
            assert forall|j: int| 0 <= j < r + 1 implies (#[trigger] ds[j]).name != name by {
                if j >= 1 {
                    assert(t[j - 1].name != name);
                }
            }
            assert(has_interface(ds, name));
        }
    } else if ds.len() > 0 {
        assert(has_interface(ds, name));
    }
}

/// No two devices share a name.
pub open spec fn unique_names(ds: Seq<DeviceV>) -> bool {
    forall|i: int, j: int|
        0 <= i < j < ds.len() ==> (#[trigger] ds[i]).name != (#[trigger] ds[j]).name
}

impl InterfaceRegistry {
    /// Every held device name is unique.
    pub open spec fn wf(&self) -> bool {
        unique_names(self@)
    }

    /// A registry with no interfaces.
    pub fn new() -> (r: InterfaceRegistry)
        ensures
            r@ == Seq::<DeviceV>::empty(),
            r.wf(),
    {
        let r = InterfaceRegistry { devices: Vec::new() };
        proof {
            assert(r@ =~= Seq::<DeviceV>::empty());
        }
        r
    }

    /// The position of the first device named `name`, as `dev_idx` gives it.
    fn find_device(&self, name: &InterfaceName) -> (r: Option<usize>)
        ensures
            r matches Some(i) ==> dev_idx(self@, name@) == i && i < self@.len(),
            r is None ==> dev_idx(self@, name@) == -1,
    {
        let mut i: usize = 0;
        while i < self.devices.len()
            invariant
                i <= self.devices@.len(),
                self@ == self.devices@.map_values(|d: Device| d@),
                forall|j: int| 0 <= j < i ==> (#[trigger] self@[j]).name != name@,
            decreases self.devices@.len() - i,
        {
            if self.devices[i].name.equals(name) {
                proof {
                    lemma_dev_idx(self@, name@);
                    assert(self@[i as int].name == name@);
                    let r = dev_idx(self@, name@);
                    if r == -1 {
                        assert(self@[i as int].name != name@);
                    } else {
                        if r < i {
                            assert(self@[r].name != name@);
                        }
                        if r > i {
                            assert(self@[i as int].name != name@);
                        }
                    }
                    assert(r == i);
                }
                return Some(i);
            }
            i += 1;
        }
        proof {
            lemma_dev_idx(self@, name@);
            if dev_idx(self@, name@) != -1 {
                assert(self@[dev_idx(self@, name@)].name == name@);
            }
        }
        None
    }

    /// The names of all interfaces currently present, in registry order.
    pub fn list_interfaces(&self) -> (r: Vec<InterfaceName>)
        ensures
            r@.len() == self@.len(),
            forall|i: int| 0 <= i < r@.len() ==> (#[trigger] r@[i])@ == self@[i].name,
    {
        let mut out: Vec<InterfaceName> = Vec::new();
        let mut i: usize = 0;
        while i < self.devices.len()
            invariant
                i <= self.devices@.len(),
                self@ == self.devices@.map_values(|d: Device| d@),
                out@.len() == i,
                forall|j: int| 0 <= j < i ==> (#[trigger] out@[j])@ == self@[j].name,
            decreases self.devices@.len() - i,
        {
            out.push(self.devices[i].name.duplicate());
            i += 1;
        }
        out
    }

    /// The snapshot of the interface named `name`; fails with `NotFound`
    /// exactly when no such interface is present.
    pub fn get(&self, name: &InterfaceName) -> (r: Result<Device, WgError>)
        ensures
            has_interface(self@, name@) ==> (r matches Ok(d) && 0 <= dev_idx(self@, name@)
                < self@.len() && d@ == self@[dev_idx(self@, name@)]),
            !has_interface(self@, name@) ==> (r matches Err(e) && e == WgError::NotFound),
    {
        proof {
            lemma_dev_idx(self@, name@);
        }
        match self.find_device(name) {
            Some(i) => Ok(self.devices[i].duplicate()),
            None => Err(WgError::NotFound),
        }
    }

    /// Applies `update` to the interface named `name`, creating the
    /// interface when absent; the resulting snapshot is
    /// `spec_apply_update` of the prior one (or of the empty device).
    pub fn apply(&mut self, name: &InterfaceName, update: &DeviceUpdate) -> (r: Result<
        (),
        WgError,
    >)
        requires
            old(self).wf(),
        ensures
            r is Ok,
            final(self).wf(),
            !has_interface(old(self)@, name@) ==> final(self)@ == old(self)@.push(
                spec_apply_update(empty_device(name@), update@),
            ),
            has_interface(old(self)@, name@) ==> final(self)@ == old(self)@.update(
                dev_idx(old(self)@, name@),
                spec_apply_update(old(self)@[dev_idx(old(self)@, name@)], update@),
            ),
    {
        proof {
            lemma_dev_idx(old(self)@, name@);
        }
        match self.find_device(name) {
            Some(i) => {
                let ghost pre = self@;
                let d = self.devices[i].apply_update(update);
                self.devices.remove(i);
                self.devices.insert(i, d);
                proof {
                    assert(self@ =~= pre.update(
                        i as int,
                        spec_apply_update(pre[i as int], update@),
                    ));
                    assert forall|a: int, b: int|
                        0 <= a < b < self@.len() implies (#[trigger] self@[a]).name
                        != (#[trigger] self@[b]).name by {
                        assert(self@[a].name == pre[a].name);
                        assert(self@[b].name == pre[b].name);
                    }
                }
                Ok(())
            },
            None => {
                let ghost pre = self@;
                let d = Device::new_empty(name.duplicate()).apply_update(update);
                self.devices.push(d);
                proof {
                    assert(self@ =~= pre.push(spec_apply_update(empty_device(name@), update@)));
                    assert forall|a: int, b: int|
                        0 <= a < b < self@.len() implies (#[trigger] self@[a]).name
                        != (#[trigger] self@[b]).name by {
                        if b < pre.len() {
                            assert(self@[a].name == pre[a].name);
                            assert(self@[b].name == pre[b].name);
                        } else {
                            assert(self@[b].name == name@);
                            assert(self@[a].name == pre[a].name);
                            assert(pre[a].name != name@);
                        }
                    }
                }
                Ok(())
            },
        }
    }

    /// Tears the interface down; fails with `NotFound` exactly when no such
    /// interface is present, and then changes nothing.
    pub fn delete(&mut self, name: &InterfaceName) -> (r: Result<(), WgError>)
        requires
            old(self).wf(),
        ensures
            final(self).wf(),
            !has_interface(old(self)@, name@) ==> (r matches Err(e) && e == WgError::NotFound
                && final(self)@ == old(self)@),
            has_interface(old(self)@, name@) ==> (r is Ok && final(self)@ == old(self)@.remove(
                dev_idx(old(self)@, name@),
            )),
    {
        proof {
            lemma_dev_idx(old(self)@, name@);
        }
        match self.find_device(name) {
            Some(i) => {
                let ghost pre = self@;
                self.devices.remove(i);
                proof {
                    assert(self@ =~= pre.remove(i as int));
                    assert forall|a: int, b: int|
                        0 <= a < b < self@.len() implies (#[trigger] self@[a]).name
                        != (#[trigger] self@[b]).name by {
                        let a0 = if a < i { a } else { a + 1 };
                        let b0 = if b < i { b } else { b + 1 };
                        assert(self@[a] == pre[a0]);
                        assert(self@[b] == pre[b0]);
                    }
                }
                Ok(())
            },
            None => Err(WgError::NotFound),
        }
    }

    /// Removes the peer with `public_key` from the interface named `name`.
    /// Fails with `NotFound` exactly when the interface is absent; a peer
    /// that is not present is no error, and the device is then unchanged.
    pub fn remove_peer(&mut self, name: &InterfaceName, public_key: &Key) -> (r: Result<
        (),
        WgError,
    >)
        requires
            old(self).wf(),
        ensures
            final(self).wf(),
            !has_interface(old(self)@, name@) ==> (r matches Err(e) && e == WgError::NotFound
                && final(self)@ == old(self)@),
            has_interface(old(self)@, name@) ==> r is Ok && ({
                let di = dev_idx(old(self)@, name@);
                let d = old(self)@[di];
                let pi = peer_idx(d.peers, public_key@);
                &&& (pi == -1 ==> final(self)@ == old(self)@)
                &&& (pi != -1 ==> final(self)@ == old(self)@.update(
                    di,
                    DeviceV { peers: d.peers.remove(pi), ..d },
                ))
            }),
    {
        proof {
            lemma_dev_idx(old(self)@, name@);
        }
        match self.find_device(name) {
            Some(i) => {
                let ghost pre = self@;
                let ghost d = pre[i as int];
                let ghost pi = peer_idx(d.peers, public_key@);
                match find_peer(&self.devices[i].peers, public_key) {
                    None => {
                        proof {
                            assert(final(self)@ == pre);
                        }
                        Ok(())
                    },
                    Some(_) => {
                        let u = DeviceUpdate::new().remove_peer_by_key(public_key);
                        let nd = self.devices[i].apply_update(&u);
                        self.devices.remove(i);
                        self.devices.insert(i, nd);
                        proof {
                            let rb = PeerBuilderV {
                                public_key: public_key@,
                                preshared_key: None,
                                endpoint: None,
                                persistent_keepalive_interval: None,
                                allowed_ips: Seq::empty(),
                                replace_allowed_ips: false,
                                remove_me: true,
                            };
                            assert(u@.peers =~= seq![rb]);
                            assert(u@.peers.skip(1) =~= Seq::<PeerBuilderV>::empty());
                            assert(apply_peers(d.peers, u@.peers) == apply_peers(
                                apply_one(d.peers, rb),
                                u@.peers.skip(1),
                            ));
                            assert(apply_one(d.peers, rb) == d.peers.remove(pi));
                            assert(spec_apply_update(d, u@) =~= (DeviceV {
                                peers: d.peers.remove(pi),
                                ..d
                            }));
                            assert(self@ =~= pre.update(
                                i as int,
                                DeviceV { peers: d.peers.remove(pi), ..d },
                            ));
                            assert forall|a: int, b: int|
                                0 <= a < b < self@.len() implies (#[trigger] self@[a]).name
                                != (#[trigger] self@[b]).name by {
                                assert(self@[a].name == pre[a].name);
                                assert(self@[b].name == pre[b].name);
                            }
                        }
                        Ok(())
                    },
                }
            },
            None => Err(WgError::NotFound),
        }
    }

    /// Adds one peer change to the interface named `name`, creating the
    /// interface when absent, as an update holding only that builder does.
    pub fn add_peer(&mut self, name: &InterfaceName, peer: PeerConfigBuilder) -> (r: Result<
        (),
        WgError,
    >)
        requires
            old(self).wf(),
        ensures
            r is Ok,
            final(self).wf(),
            ({
                let uv = UpdateV {
                    public_key: None,
                    private_key: None,
                    fwmark: None,
                    listen_port: None,
                    peers: seq![peer@],
                    replace_peers: false,
                };
                &&& (!has_interface(old(self)@, name@) ==> final(self)@ == old(self)@.push(
                    spec_apply_update(empty_device(name@), uv),
                ))
                &&& (has_interface(old(self)@, name@) ==> final(self)@ == old(self)@.update(
                    dev_idx(old(self)@, name@),
                    spec_apply_update(old(self)@[dev_idx(old(self)@, name@)], uv),
                ))
            }),
    {
        let ghost pv = peer@;
        let u = DeviceUpdate::new().add_peer(peer);
        proof {
            assert(u@.peers =~= seq![pv]);
            assert(u@ =~= (UpdateV {
                public_key: None,
                private_key: None,
                fwmark: None,
                listen_port: None,
                peers: seq![pv],
                replace_peers: false,
            }));
        }
        self.apply(name, &u)
    }
}

} // verus!
