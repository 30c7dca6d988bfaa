//! Hash slots, who owns them, and how the operator names the nodes.

use imcache::cluster::{crc16, slot_for, ClusterConfig, SLOT_COUNT};
use imcache::config::{cluster_from, parse_cluster_nodes};

fn three_nodes() -> Vec<(String, u16)> {
    vec![
        ("a".to_string(), 1),
        ("b".to_string(), 2),
        ("c".to_string(), 3),
    ]
}

#[test]
fn crc16_matches_known_redis_cluster_vectors() {
    assert_eq!(crc16(b""), 0x0000);
    assert_eq!(crc16(b"123456789"), 0x31C3);
}

#[test]
fn slots_split_evenly_and_cover_the_whole_space() {
    let cfg = ClusterConfig::new(three_nodes(), 0);
    let mut total = 0u32;
    for i in 0..3 {
        let ranges = cfg.slot_ranges_for_index(i);
        for (s, e) in &ranges {
            total += (*e as u32) - (*s as u32) + 1;
        }
    }
    assert_eq!(total, SLOT_COUNT as u32);
}

#[test]
fn every_slot_has_exactly_one_owner() {
    let nodes = vec![("a".to_string(), 1), ("b".to_string(), 2)];
    let cfg = ClusterConfig::new(nodes, 0);
    for slot in 0..SLOT_COUNT {
        let owner = cfg.owner_index(slot);
        assert!(owner < 2);
    }
}

#[test]
fn slot_is_checksum_modulo_slot_count() {
    assert_eq!(slot_for(b"123456789"), 0x31C3);
    assert_eq!(slot_for(b"foo"), 12182);
    assert_eq!(slot_for(b"bar"), 5061);
    assert_eq!(slot_for(b""), 0);
}

#[test]
fn three_nodes_get_neighbouring_ranges() {
    let cfg = ClusterConfig::new(three_nodes(), 1);
    assert_eq!(cfg.slot_ranges_for_index(0), vec![(0, 5461)]);
    assert_eq!(cfg.slot_ranges_for_index(1), vec![(5462, 10922)]);
    assert_eq!(cfg.slot_ranges_for_index(2), vec![(10923, 16383)]);
    assert_eq!(cfg.slot_ranges_for_index(3), vec![]);
    assert_eq!(cfg.nodes().len(), 3);
    assert_eq!(cfg.owner_index(5461), 0);
    assert_eq!(cfg.owner_index(5462), 1);
    assert!(cfg.owns(5462));
    assert!(!cfg.owns(5461));
    assert_eq!(cfg.owner_addr(10923), &("c".to_string(), 3));
}

#[test]
fn sizes_of_ranges_differ_by_at_most_one() {
    for n in 1usize..40 {
        let nodes: Vec<(String, u16)> = (0..n).map(|i| (format!("n{i}"), 1)).collect();
        let cfg = ClusterConfig::new(nodes, 0);
        let mut next = 0u32;
        for i in 0..n {
            let ranges = cfg.slot_ranges_for_index(i);
            assert_eq!(ranges.len(), 1);
            let (s, e) = ranges[0];
            assert_eq!(s as u32, next);
            let size = e as u32 - s as u32 + 1;
            assert!(size == 16384 / n as u32 || size == (16384 + n as u32 - 1) / n as u32);
            next = e as u32 + 1;
        }
        assert_eq!(next, 16384);
    }
}

#[test]
fn node_list_is_read_in_order() {
    let nodes = parse_cluster_nodes("127.0.0.1:6380,h:1,::1:65535").unwrap();
    assert_eq!(
        nodes,
        vec![
            ("127.0.0.1".to_string(), 6380),
            ("h".to_string(), 1),
            ("::1".to_string(), 65535)
        ]
    );
}

#[test]
fn node_without_port_is_refused() {
    assert_eq!(
        parse_cluster_nodes("a:1,nonsense").unwrap_err(),
        "invalid cluster node 'nonsense', expected host:port"
    );
    assert_eq!(
        parse_cluster_nodes("").unwrap_err(),
        "invalid cluster node '', expected host:port"
    );
}

#[test]
fn node_with_bad_port_is_refused() {
    assert_eq!(
        parse_cluster_nodes("a:65536").unwrap_err(),
        "invalid port in cluster node 'a:65536'"
    );
    assert_eq!(
        parse_cluster_nodes("a:1,b:").unwrap_err(),
        "invalid port in cluster node 'b:'"
    );
    assert_eq!(
        parse_cluster_nodes("knöten:x").unwrap_err(),
        "invalid port in cluster node 'knöten:x'"
    );
}

#[test]
fn cluster_needs_both_settings() {
    assert!(cluster_from(None, None).unwrap().is_none());
    let both = "--cluster-nodes and --cluster-self-index must be set together";
    assert_eq!(cluster_from(Some("a:1"), None).unwrap_err(), both);
    assert_eq!(cluster_from(None, Some(0)).unwrap_err(), both);
}

#[test]
fn cluster_position_must_be_in_the_list() {
    let config = cluster_from(Some("a:1,b:2"), Some(1)).unwrap().unwrap();
    assert_eq!(config.nodes().len(), 2);
    assert!(config.owns(16383));
    assert_eq!(
        cluster_from(Some("a:1,b:2"), Some(2)).unwrap_err(),
        "--cluster-self-index 2 out of range for 2 cluster nodes"
    );
    assert_eq!(
        cluster_from(Some("x"), Some(2)).unwrap_err(),
        "invalid cluster node 'x', expected host:port"
    );
}

#[test]
fn written_node_lists_are_read_back() {
    let nodes: Vec<(String, u16)> = vec![
        ("127.0.0.1".to_string(), 6380),
        ("::1".to_string(), 0),
        ("kn\u{f6}ten".to_string(), 65535),
        (String::new(), 7),
    ];
    for n in 1..=nodes.len() {
        let list: Vec<String> = nodes[..n].iter().map(|(h, p)| format!("{h}:{p}")).collect();
        assert_eq!(parse_cluster_nodes(&list.join(",")).unwrap(), nodes[..n].to_vec());
    }
}
