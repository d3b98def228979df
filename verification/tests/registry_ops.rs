use wireguardex::iface::InterfaceName;
use wireguardex::ip::{AllowedIp, Endpoint};
use wireguardex::key::{derive_public, generate_private, generate_preshared};
use wireguardex::device::DeviceUpdate;
use wireguardex::peer::PeerConfigBuilder;
use wireguardex::registry::InterfaceRegistry;
use wireguardex::WgError;

fn name(text: &str) -> InterfaceName {
    InterfaceName::from_text(text).unwrap()
}

#[test]
fn get_and_delete_missing_fail_not_found() {
    let mut reg = InterfaceRegistry::new();
    let n = name("wg0");
    assert_eq!(reg.get(&n).err(), Some(WgError::NotFound));
    assert_eq!(reg.delete(&n).err(), Some(WgError::NotFound));
    assert_eq!(reg.remove_peer(&n, &generate_preshared()).err(), Some(WgError::NotFound));
}

#[test]
fn apply_creates_interface() {
    let mut reg = InterfaceRegistry::new();
    let n = name("wg0");
    reg.apply(&n, &DeviceUpdate::new().set_listen_port(51820)).unwrap();
    let names = reg.list_interfaces();
    assert_eq!(names.len(), 1);
    assert_eq!(names[0].as_text(), "wg0");
    let d = reg.get(&n).unwrap();
    assert_eq!(d.listen_port, Some(51820));
    assert_eq!(d.peers.len(), 0);
}

#[test]
fn delete_tears_interface_down() {
    let mut reg = InterfaceRegistry::new();
    let n = name("wg0");
    reg.apply(&n, &DeviceUpdate::new()).unwrap();
    assert!(reg.get(&n).is_ok());
    reg.delete(&n).unwrap();
    assert_eq!(reg.get(&n).err(), Some(WgError::NotFound));
    assert_eq!(reg.list_interfaces().len(), 0);
}

#[test]
fn scalar_fields_merge_not_reset() {
    let mut reg = InterfaceRegistry::new();
    let n = name("wg0");
    reg.apply(&n, &DeviceUpdate::new().set_listen_port(51820)).unwrap();
    reg.apply(&n, &DeviceUpdate::new().set_fwmark(7)).unwrap();
    let d = reg.get(&n).unwrap();
    assert_eq!(d.listen_port, Some(51820));
    assert_eq!(d.fwmark, Some(7));
    assert_eq!(d.public_key, None);
}

#[test]
fn replace_peers_leaves_exactly_the_listed_peers() {
    let mut reg = InterfaceRegistry::new();
    let n = name("wg0");
    let ka = generate_preshared();
    let kb = generate_preshared();
    let kc = generate_preshared();
    let u1 = DeviceUpdate::new()
        .add_peer(PeerConfigBuilder::new(ka.duplicate()))
        .add_peer(PeerConfigBuilder::new(kb.duplicate()));
    reg.apply(&n, &u1).unwrap();
    assert_eq!(reg.get(&n).unwrap().peers.len(), 2);

    let u2 = DeviceUpdate::new()
        .replace_peers()
        .add_peer(PeerConfigBuilder::new(kc.duplicate()));
    reg.apply(&n, &u2).unwrap();
    let d = reg.get(&n).unwrap();
    assert_eq!(d.peers.len(), 1);
    assert_eq!(d.peers[0].config.public_key.bytes(), kc.bytes());
}

#[test]
fn adding_a_new_peer_leaves_existing_peers_untouched() {
    let mut reg = InterfaceRegistry::new();
    let n = name("wg0");
    let ka = generate_preshared();
    let kb = generate_preshared();
    let pa = PeerConfigBuilder::new(ka.duplicate())
        .set_persistent_keepalive_interval(10)
        .add_allowed_ip(AllowedIp::parse("10.0.0.1/32").unwrap());
    reg.apply(&n, &DeviceUpdate::new().add_peer(pa)).unwrap();

    let pb = PeerConfigBuilder::new(kb.duplicate());
    reg.apply(&n, &DeviceUpdate::new().add_peer(pb)).unwrap();

    let d = reg.get(&n).unwrap();
    assert_eq!(d.peers.len(), 2);
    assert_eq!(d.peers[0].config.public_key.bytes(), ka.bytes());
    assert_eq!(d.peers[0].config.persistent_keepalive_interval, Some(10));
    assert_eq!(
        d.peers[0].config.allowed_ips,
        vec![AllowedIp::parse("10.0.0.1/32").unwrap()]
    );
    assert_eq!(d.peers[1].config.public_key.bytes(), kb.bytes());
    assert_eq!(d.peers[1].config.persistent_keepalive_interval, None);
}

#[test]
fn same_key_twice_last_set_attribute_wins() {
    let mut reg = InterfaceRegistry::new();
    let n = name("wg0");
    let k = generate_preshared();
    let u = DeviceUpdate::new()
        .add_peer(
            PeerConfigBuilder::new(k.duplicate())
                .set_persistent_keepalive_interval(10)
                .add_allowed_ip(AllowedIp::parse("10.0.0.1/32").unwrap()),
        )
        .add_peer(
            PeerConfigBuilder::new(k.duplicate())
                .set_persistent_keepalive_interval(25)
                .add_allowed_ip(AllowedIp::parse("10.0.0.2/32").unwrap()),
        );
    reg.apply(&n, &u).unwrap();
    let d = reg.get(&n).unwrap();
    assert_eq!(d.peers.len(), 1);
    assert_eq!(d.peers[0].config.persistent_keepalive_interval, Some(25));
    // Allowed IPs are additive without the replace flag.
    assert_eq!(
        d.peers[0].config.allowed_ips,
        vec![
            AllowedIp::parse("10.0.0.1/32").unwrap(),
            AllowedIp::parse("10.0.0.2/32").unwrap(),
        ]
    );
}

#[test]
fn replace_allowed_ips_discards_earlier_list() {
    let mut reg = InterfaceRegistry::new();
    let n = name("wg0");
    let k = generate_preshared();
    reg.add_peer(
        &n,
        PeerConfigBuilder::new(k.duplicate())
            .add_allowed_ip(AllowedIp::parse("10.0.0.1/32").unwrap()),
    )
    .unwrap();
    reg.add_peer(
        &n,
        PeerConfigBuilder::new(k.duplicate())
            .replace_allowed_ips()
            .add_allowed_ip(AllowedIp::parse("10.1.0.0/16").unwrap()),
    )
    .unwrap();
    let d = reg.get(&n).unwrap();
    assert_eq!(d.peers.len(), 1);
    assert_eq!(
        d.peers[0].config.allowed_ips,
        vec![AllowedIp::parse("10.1.0.0/16").unwrap()]
    );
}

#[test]
fn peer_endpoint_set_through_builder() {
    let mut reg = InterfaceRegistry::new();
    let n = name("wg0");
    let k = generate_preshared();
    let peer = PeerConfigBuilder::new(k.duplicate())
        .set_endpoint("[fe80::7]:51820")
        .unwrap();
    reg.add_peer(&n, peer).unwrap();
    let d = reg.get(&n).unwrap();
    assert_eq!(
        d.peers[0].config.endpoint,
        Some(Endpoint::parse("[fe80::7]:51820").unwrap())
    );
    assert!(PeerConfigBuilder::new(k.duplicate())
        .set_endpoint("fe80::7")
        .is_err());
}

#[test]
fn remove_peer_absent_is_noop_success() {
    let mut reg = InterfaceRegistry::new();
    let n = name("wg0");
    let ka = generate_preshared();
    let kb = generate_preshared();
    reg.add_peer(&n, PeerConfigBuilder::new(ka.duplicate())).unwrap();
    // kb was never added: success, nothing changes.
    assert!(reg.remove_peer(&n, &kb).is_ok());
    let d = reg.get(&n).unwrap();
    assert_eq!(d.peers.len(), 1);
    assert_eq!(d.peers[0].config.public_key.bytes(), ka.bytes());
}

#[test]
fn remove_peer_present_takes_it_out() {
    let mut reg = InterfaceRegistry::new();
    let n = name("wg0");
    let ka = generate_preshared();
    let kb = generate_preshared();
    reg.add_peer(&n, PeerConfigBuilder::new(ka.duplicate())).unwrap();
    reg.add_peer(&n, PeerConfigBuilder::new(kb.duplicate())).unwrap();
    reg.remove_peer(&n, &ka).unwrap();
    let d = reg.get(&n).unwrap();
    assert_eq!(d.peers.len(), 1);
    assert_eq!(d.peers[0].config.public_key.bytes(), kb.bytes());
}

#[test]
fn removal_directive_in_update_removes_peer() {
    let mut reg = InterfaceRegistry::new();
    let n = name("wg0");
    let k = generate_preshared();
    reg.add_peer(&n, PeerConfigBuilder::new(k.duplicate())).unwrap();
    let u = DeviceUpdate::new().remove_peer_by_key(&k);
    reg.apply(&n, &u).unwrap();
    assert_eq!(reg.get(&n).unwrap().peers.len(), 0);
}

#[test]
fn peer_lifecycle_scenario() {
    // Generate a private key and derive its public key.
    let k_priv = generate_private();
    let k_pub = derive_public(&k_priv);

    // Build a peer for that public key with one allowed IP and a keepalive.
    let allowed = AllowedIp::parse("10.0.0.2/32").unwrap();
    let peer = PeerConfigBuilder::new(k_pub.duplicate())
        .add_allowed_ip(allowed)
        .set_persistent_keepalive_interval(25);

    // Apply it with replace_peers against a fresh interface.
    let update = DeviceUpdate::new().replace_peers().add_peer(peer);
    let mut reg = InterfaceRegistry::new();
    let n = name("wg-test");
    reg.apply(&n, &update).unwrap();

    // The interface now shows exactly that one, never-connected peer.
    let d = reg.get(&n).unwrap();
    assert_eq!(d.name.as_text(), "wg-test");
    assert_eq!(d.peers.len(), 1);
    let p = &d.peers[0];
    assert_eq!(p.config.public_key.bytes(), k_pub.bytes());
    assert_eq!(p.config.allowed_ips, vec![allowed]);
    assert_eq!(p.config.persistent_keepalive_interval, Some(25));
    assert_eq!(p.stats.rx_bytes, 0);
    assert_eq!(p.stats.tx_bytes, 0);
    assert_eq!(p.stats.last_handshake_time, None);
}
