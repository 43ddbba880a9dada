use rckit::consistency::{is_consistent, views_agree, Poll};
use rckit::delete::delete_node;
use rckit::error::{Error, Violation};
use rckit::fix::{fix_slots, resolve_duplicate};
use rckit::migrate::apply_slot_move;
use rckit::parse::{parse_info, parse_nodes};
use rckit::reshard::{plan_rebalance, plan_spread};
use rckit::topology::{Cluster, Node, Role};

fn master(id: &str, port: &str, slots: Vec<u16>) -> Node {
    Node {
        id: id.to_string(),
        ip: "127.0.0.1".to_string(),
        port: port.to_string(),
        role: Role::Master,
        master_id: None,
        slots,
        config_epoch: 1,
        link_connected: true,
        fail: false,
        myself: false,
        migrating: Vec::new(),
        importing: Vec::new(),
    }
}

fn replica(id: &str, port: &str, master_id: &str) -> Node {
    Node {
        id: id.to_string(),
        ip: "127.0.0.1".to_string(),
        port: port.to_string(),
        role: Role::Replica,
        master_id: Some(master_id.to_string()),
        slots: Vec::new(),
        config_epoch: 2,
        link_connected: true,
        fail: false,
        myself: false,
        migrating: Vec::new(),
        importing: Vec::new(),
    }
}

#[test]
fn rebalance_converges_from_two_heavy_masters() {
    let counts = vec![8192usize, 8192, 0];
    let moves = plan_rebalance(&counts).unwrap();
    assert_eq!(moves, vec![(0, 2, 2730), (1, 2, 2731)]);
    let mut cur = counts.clone();
    for (f, t, n) in &moves {
        cur[*f] -= n;
        cur[*t] += n;
        // never between two masters both below target
        assert!(counts[*f] > 5461);
        assert!(counts[*t] < 5461 + 1);
    }
    for c in &cur {
        assert!((*c as i64 - 5461).abs() <= 1);
    }
    assert_eq!(cur.iter().sum::<usize>(), 16384);
}

#[test]
fn spread_assigns_shares_in_order() {
    let slots = vec![10u16, 11, 12, 13, 14, 15];
    let plan = plan_spread(&slots, 2, 6).unwrap();
    assert_eq!(plan, vec![(0, 10), (0, 11), (0, 12), (1, 13), (1, 14), (1, 15)]);
    assert!(plan_spread(&slots, 0, 3).is_err());
    assert!(plan_spread(&slots, 2, 7).is_err());
}

#[test]
fn parse_nodes_decodes_peer_table() {
    let mut reply = String::new();
    reply.push_str("e7d1eecce10fd6bb5eb35b9f99a514335d9ba9ca 127.0.0.1:30001@31001 myself,master - 0 0 1 connected 0-5460 [5461->-67ed2db8d677e59ec4a4cefb06858cf2a1a89fa1]\r\n");
    reply.push_str("67ed2db8d677e59ec4a4cefb06858cf2a1a89fa1 127.0.0.1:30002@31002 master - 0 1426238316232 2 connected 5461-10922 16383\r\n");
    reply.push_str("07c37dfeb235213a872192d90877d0cd55635b91 127.0.0.1:30004@31004 slave e7d1eecce10fd6bb5eb35b9f99a514335d9ba9ca 0 1426238317239 4 connected\r\n");
    let nodes = parse_nodes(&reply.as_bytes().to_vec()).unwrap();
    assert_eq!(nodes.len(), 3);
    assert_eq!(nodes[0].id, "e7d1eecce10fd6bb5eb35b9f99a514335d9ba9ca");
    assert_eq!(nodes[0].ip, "127.0.0.1");
    assert_eq!(nodes[0].port, "30001");
    assert!(matches!(nodes[0].role, Role::Master));
    assert!(nodes[0].myself);
    assert!(nodes[0].slots.contains(&0));
    assert!(nodes[0].slots.contains(&5460));
    assert!(!nodes[0].slots.contains(&5461));
    assert_eq!(
        nodes[0].migrating,
        vec![(5461, "67ed2db8d677e59ec4a4cefb06858cf2a1a89fa1".to_string())]
    );
    assert_eq!(nodes[1].config_epoch, 2);
    assert!(nodes[1].slots.contains(&16383));
    assert!(matches!(nodes[2].role, Role::Replica));
    assert_eq!(
        nodes[2].master_id,
        Some("e7d1eecce10fd6bb5eb35b9f99a514335d9ba9ca".to_string())
    );
    // a line with too few fields refuses the whole reply
    let bad = b"deadbeef 127.0.0.1:30001 master - 0 0\n".to_vec();
    assert!(matches!(parse_nodes(&bad), Err(Error::BadReply)));
    // an address without a colon refuses the reply too
    let noport = b"deadbeef 127001 master - 0 0 1 connected\n".to_vec();
    assert!(matches!(parse_nodes(&noport), Err(Error::BadReply)));
    // a parser that parses nothing would violate the contract: the empty
    // reply is the only input with no nodes
    assert_eq!(parse_nodes(&Vec::new()).unwrap().len(), 0);
}

#[test]
fn parse_info_keeps_simple_pairs() {
    let reply = b"cluster_enabled:1\r\ncluster_state:ok\r\n# Comment line\r\n".to_vec();
    let pairs = parse_info(&reply);
    assert_eq!(
        pairs,
        vec![
            ("cluster_enabled".to_string(), "1".to_string()),
            ("cluster_state".to_string(), "ok".to_string()),
        ]
    );
}

#[test]
fn check_rejects_dangling_replica_and_double_claim() {
    let all: Vec<u16> = (0..16384).collect();
    let c = Cluster::new(vec![master("aa", "7000", all.clone()), replica("bb", "7001", "zz")]);
    assert!(matches!(
        c.check(),
        Err(Error::BadCluster(Violation::DanglingReplica(1)))
    ));
    let c2 = Cluster::new(vec![
        master("aa", "7000", all.clone()),
        master("bb", "7001", vec![5000]),
    ]);
    assert!(matches!(
        c2.check(),
        Err(Error::BadCluster(Violation::DuplicateOwner(5000)))
    ));
    let c3 = Cluster::new(vec![master("aa", "7000", all)]);
    assert!(c3.check().is_ok());
}

#[test]
fn fix_assigns_unowned_slot_to_importer() {
    let most: Vec<u16> = (0..16384).filter(|s| *s != 100).collect();
    let mut b = master("bb", "7001", Vec::new());
    b.importing.push((100, "aa".to_string()));
    let mut c = Cluster::new(vec![master("aa", "7000", most), b]);
    fix_slots(&mut c).unwrap();
    assert!(c.nodes[1].slots.contains(&100));
    assert!(!c.nodes[0].slots.contains(&100));
    assert_eq!(c.count_owners(100), 1);
    assert!(c.count_owners(99) == 1 && c.count_owners(101) == 1);
}

#[test]
fn resolve_duplicate_clears_loser_markers() {
    let all: Vec<u16> = (0..16384).collect();
    let mut loser = master("bb", "7001", vec![5000]);
    loser.migrating.push((5000, "aa".to_string()));
    loser.migrating.push((7, "cc".to_string()));
    let mut c = Cluster::new(vec![master("aa", "7000", all), loser]);
    resolve_duplicate(&mut c, 5000, 0);
    assert!(!c.nodes[1].slots.contains(&5000));
    assert!(c.nodes[0].slots.contains(&5000));
    assert_eq!(c.nodes[1].migrating, vec![(7, "cc".to_string())]);
    assert_eq!(c.count_owners(5000), 1);
}

#[test]
fn slot_move_changes_exactly_one_owner() {
    let mut c = Cluster::new(vec![
        master("aa", "7000", vec![3, 5, 9]),
        master("bb", "7001", vec![1]),
    ]);
    apply_slot_move(&mut c, 5, 0, 1);
    assert!(!c.nodes[0].slots.contains(&5));
    assert!(c.nodes[1].slots.contains(&5));
    assert!(c.nodes[0].slots.contains(&3) && c.nodes[0].slots.contains(&9));
    assert!(c.nodes[1].slots.contains(&1));
}

#[test]
fn delete_master_moves_slots_and_drops_replica() {
    let head: Vec<u16> = (0..16284).collect();
    let tail: Vec<u16> = (16284..16384).collect();
    let mut c = Cluster::new(vec![
        master("aa", "7000", head),
        master("vv", "7001", tail),
        replica("rr", "7002", "vv"),
    ]);
    delete_node(&mut c, 1).unwrap();
    assert_eq!(c.nodes.len(), 1);
    for n in &c.nodes {
        assert_ne!(n.id, "vv");
        assert_ne!(n.id, "rr");
        assert_ne!(n.master_id.as_deref(), Some("vv"));
    }
    for s in [0u16, 16284, 16383] {
        assert_eq!(c.count_owners(s), 1);
    }
}

#[test]
fn consistency_compares_views() {
    let all: Vec<u16> = (0..16384).collect();
    let v1 = Cluster::new(vec![master("aa", "7000", all.clone()), replica("bb", "7001", "aa")]);
    let v2 = Cluster::new(vec![replica("bb", "7001", "aa"), master("aa", "7000", all.clone())]);
    assert!(views_agree(&v1, &v2));
    let mut changed = master("aa", "7000", all.clone());
    changed.config_epoch = 9;
    let v3 = Cluster::new(vec![changed, replica("bb", "7001", "aa")]);
    assert!(!views_agree(&v1, &v3));
    let views = vec![v1, v2];
    assert!(is_consistent(&views));
}

#[test]
fn poll_times_out_after_budget() {
    let mut p = Poll::new(2);
    assert!(p.step(false).is_none());
    assert!(p.step(false).is_none());
    assert!(matches!(p.step(false), Some(Err(Error::ConvergenceTimeout))));
    let mut q = Poll::new(0);
    assert!(matches!(q.step(true), Some(Ok(()))));
}

#[test]
fn find_node_by_id_or_address() {
    let c = Cluster::new(vec![master("aa", "7000", vec![1])]);
    assert_eq!(c.find_node(&"aa".to_string()).unwrap(), 0);
    assert_eq!(c.find_node(&"127.0.0.1:7000".to_string()).unwrap(), 0);
    assert!(matches!(
        c.find_node(&"missing".to_string()),
        Err(Error::NotFound)
    ));
}
