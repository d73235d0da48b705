use mycelia::mesh::Mesh;
use mycelia::peer::{first_ip, AddrPart, Address, PeerId};
use mycelia::shards::ShardTable;

fn pid(b: u8) -> PeerId {
    PeerId::from_bytes(vec![0x12, 0x20, b])
}

fn owner_of(m: &Mesh, shard: u64) -> Option<Vec<u8>> {
    m.shards()
        .iter()
        .find(|e| e.0 == shard)
        .map(|e| e.1.to_bytes())
}

fn live(m: &Mesh) -> Vec<Vec<u8>> {
    m.peers().iter().map(|p| p.to_bytes()).collect()
}

#[test]
fn peer_identity_compare() {
    assert!(pid(1).same(&pid(1)));
    assert!(!pid(1).same(&pid(2)));
    assert!(!pid(1).same(&PeerId::from_bytes(vec![0x12, 0x20])));
    assert_eq!(pid(7).duplicate().to_bytes(), vec![0x12, 0x20, 7]);
}

#[test]
fn first_ip_takes_first_ip_component() {
    let parts = vec![AddrPart::Other, AddrPart::Ip4([10, 0, 0, 5]), AddrPart::Ip6([0; 16])];
    assert_eq!(first_ip(&parts), Some(Address::V4([10, 0, 0, 5])));
    let mut v6 = [0u8; 16];
    v6[15] = 1;
    assert_eq!(first_ip(&vec![AddrPart::Ip6(v6), AddrPart::Other]), Some(Address::V6(v6)));
    assert_eq!(first_ip(&vec![AddrPart::Other, AddrPart::Other]), None);
    assert_eq!(first_ip(&vec![]), None);
}

#[test]
fn discovered_peer_becomes_live_once() {
    let mut m = Mesh::new(pid(0));
    m.discovered(pid(1), Some(Address::V4([10, 0, 0, 1])));
    m.discovered(pid(1), Some(Address::V4([10, 0, 0, 9])));
    m.discovered(pid(2), None);
    assert_eq!(live(&m), vec![pid(1).to_bytes(), pid(2).to_bytes()]);
    let addrs = m.addresses();
    assert_eq!(addrs.len(), 1);
    assert_eq!(addrs[0].0.to_bytes(), pid(1).to_bytes());
    assert_eq!(addrs[0].1, Address::V4([10, 0, 0, 9]));
    assert_eq!(m.targets(), vec![Address::V4([10, 0, 0, 9])]);
    assert_eq!(m.local_peer_id().to_bytes(), pid(0).to_bytes());
}

#[test]
fn expired_peer_leaves_both_tables() {
    let mut m = Mesh::new(pid(0));
    m.discovered(pid(1), Some(Address::V4([10, 0, 0, 1])));
    m.discovered(pid(2), Some(Address::V4([10, 0, 0, 2])));
    m.expired(&pid(1));
    assert_eq!(live(&m), vec![pid(2).to_bytes()]);
    assert_eq!(m.targets(), vec![Address::V4([10, 0, 0, 2])]);
    m.expired(&pid(1));
    assert_eq!(live(&m), vec![pid(2).to_bytes()]);
    m.expired(&pid(2));
    assert!(live(&m).is_empty());
    assert!(m.addresses().is_empty());
}

#[test]
fn address_only_for_live_peers() {
    let mut m = Mesh::new(pid(0));
    m.discovered(pid(3), Some(Address::V4([192, 168, 1, 3])));
    m.discovered(pid(4), Some(Address::V4([192, 168, 1, 4])));
    m.expired(&pid(3));
    let l = live(&m);
    for (p, _) in m.addresses() {
        assert!(l.contains(&p.to_bytes()));
    }
    assert!(!m.addresses().iter().any(|e| e.0.same(&pid(3))));
}

#[test]
fn peers_discover_each_other() {
    let mut mesh1 = Mesh::new(pid(1));
    let mut mesh2 = Mesh::new(pid(2));
    let id1 = mesh1.local_peer_id();
    let id2 = mesh2.local_peer_id();
    mesh1.discovered(id2.duplicate(), Some(Address::V4([127, 0, 0, 1])));
    mesh2.discovered(id1.duplicate(), Some(Address::V4([127, 0, 0, 1])));
    assert!(live(&mesh1).contains(&id2.to_bytes()));
    assert!(live(&mesh2).contains(&id1.to_bytes()));
}

#[test]
fn shard_rebalances_on_exit() {
    let (a, b, c) = (pid(0xa), pid(0xb), pid(0xc));
    let mut mesh_b = Mesh::new(b.duplicate());
    mesh_b.discovered(a.duplicate(), Some(Address::V4([10, 0, 0, 10])));
    mesh_b.discovered(c.duplicate(), Some(Address::V4([10, 0, 0, 12])));
    mesh_b.insert_shard(1, a.duplicate());
    assert_eq!(owner_of(&mesh_b, 1), Some(a.to_bytes()));
    mesh_b.rebalance();
    assert_eq!(owner_of(&mesh_b, 1), Some(a.to_bytes()));
    mesh_b.expired(&a);
    let p = owner_of(&mesh_b, 1).unwrap();
    assert_ne!(p, a.to_bytes());
    assert!(p == b.to_bytes() || p == c.to_bytes());
    // active is [c, b]: the first orphan goes to c
    assert_eq!(p, c.to_bytes());
}

#[test]
fn rebalance_assigns_orphans_round_robin_in_shard_order() {
    let mut m = Mesh::new(pid(0));
    m.discovered(pid(1), None);
    m.insert_shard(9, pid(7));
    m.insert_shard(3, pid(7));
    m.insert_shard(5, pid(1));
    m.insert_shard(1, pid(8));
    m.insert_shard(7, pid(8));
    m.rebalance();
    let got: Vec<(u64, Vec<u8>)> = m.shards().iter().map(|e| (e.0, e.1.to_bytes())).collect();
    assert_eq!(
        got,
        vec![
            (1, pid(1).to_bytes()),
            (3, pid(0).to_bytes()),
            (5, pid(1).to_bytes()),
            (7, pid(1).to_bytes()),
            (9, pid(0).to_bytes()),
        ]
    );
}

#[test]
fn rebalance_twice_same_as_once() {
    let mut m = Mesh::new(pid(0));
    m.discovered(pid(1), None);
    m.discovered(pid(2), None);
    for s in 0..6u64 {
        m.insert_shard(s, pid(40 + s as u8));
    }
    m.rebalance();
    let once: Vec<(u64, Vec<u8>)> = m.shards().iter().map(|e| (e.0, e.1.to_bytes())).collect();
    m.rebalance();
    let twice: Vec<(u64, Vec<u8>)> = m.shards().iter().map(|e| (e.0, e.1.to_bytes())).collect();
    assert_eq!(once, twice);
    assert_eq!(once[2], (2, pid(0).to_bytes()));
    assert_eq!(once[3], (3, pid(1).to_bytes()));
}

#[test]
fn shard_table_insert_overwrites_and_sorts() {
    let mut t = ShardTable::new();
    t.insert_or_update(4, pid(1));
    t.insert_or_update(2, pid(2));
    t.insert_or_update(4, pid(3));
    t.insert_or_update(u64::MAX, pid(4));
    let got: Vec<(u64, Vec<u8>)> = t.snapshot().iter().map(|e| (e.0, e.1.to_bytes())).collect();
    assert_eq!(
        got,
        vec![(2, pid(2).to_bytes()), (4, pid(3).to_bytes()), (u64::MAX, pid(4).to_bytes())]
    );
    assert_eq!(t.len(), 3);
}

#[test]
fn shard_table_rebalance_with_no_active_peer_drops_all() {
    let mut t = ShardTable::new();
    t.insert_or_update(1, pid(1));
    t.insert_or_update(2, pid(2));
    t.rebalance(&vec![]);
    assert_eq!(t.len(), 0);
    let mut u = ShardTable::new();
    u.insert_or_update(1, pid(1));
    u.insert_or_update(2, pid(9));
    u.rebalance(&vec![pid(1)]);
    let got: Vec<(u64, Vec<u8>)> = u.snapshot().iter().map(|e| (e.0, e.1.to_bytes())).collect();
    assert_eq!(got, vec![(1, pid(1).to_bytes()), (2, pid(1).to_bytes())]);
}
