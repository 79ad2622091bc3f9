use kollaps::graph::Graph;
use kollaps::ids::ResolveError;
use kollaps::arguments::{parse_command, parse_u32, parse_usize, split_words};
use kollaps::ids::{
    address_text, addresses_named, listing_text, parse_id_addr, parse_id_name, parse_quad,
    parse_service_ids, ready_service_id, topology_listings,
};
use kollaps::network::{LeasePool, SubnetFull};
use kollaps::text::decimal_string;

fn addr(a: u8, b: u8, c: u8, d: u8) -> u32 {
    u32::from_be_bytes([a, b, c, d])
}

#[test]
fn decimal_strings() {
    assert_eq!(decimal_string(0), "0");
    assert_eq!(decimal_string(7073), "7073");
    assert_eq!(decimal_string(u64::MAX), u64::MAX.to_string());
}

#[test]
fn service_id_format() {
    assert_eq!(ready_service_id("server", addr(10, 10, 10, 2)), "kollaps_server_10-10-10-2");
    assert_eq!(ready_service_id("my_db", addr(192, 168, 0, 17)), "kollaps_my-db_192-168-0-17");
}

#[test]
fn service_id_reads_back() {
    let id = ready_service_id("my_db", addr(10, 1, 0, 255));
    assert_eq!(parse_id_name(&id), Some("my-db".to_string()));
    assert_eq!(parse_id_addr(&id), Some(addr(10, 1, 0, 255)));
}

#[test]
fn id_parts() {
    assert_eq!(parse_id_name("kollaps_client_10-0-0-3"), Some("client".to_string()));
    assert_eq!(parse_id_name("noseparator"), None);
    assert_eq!(parse_id_addr("kollaps_client_10-0-0-3"), Some(addr(10, 0, 0, 3)));
    assert_eq!(parse_id_addr("kollaps_client_10-0-0"), None);
    assert_eq!(parse_id_addr("kollaps_client_10-0-0-256"), None);
    assert_eq!(parse_id_addr("kollaps_client_10-0-0-03"), None);
    assert_eq!(parse_id_addr("kollaps_client_1.2-3-4"), Some(addr(1, 2, 3, 4)));
}

#[test]
fn dotted_quads() {
    let q = |s: &str| parse_quad(&s.chars().collect());
    assert_eq!(q("10.10.10.0"), Some(addr(10, 10, 10, 0)));
    assert_eq!(q("255.255.255.255"), Some(u32::MAX));
    assert_eq!(q("0.0.0.0"), Some(0));
    assert_eq!(q("1.2.3"), None);
    assert_eq!(q("1.2.3.4.5"), None);
    assert_eq!(q("1..3.4"), None);
    assert_eq!(q("1.2.3.x"), None);
    assert_eq!(q("1.2.3.1000"), None);
    assert_eq!(address_text(addr(10, 10, 10, 5)), "10.10.10.5");
    assert_eq!(address_text(0), "0.0.0.0");
}

#[test]
fn service_id_lines() {
    let text = "kollaps_server_10-10-10-2\n\nkollaps_client_10-10-10-3\n";
    let pairs = parse_service_ids(text).unwrap();
    assert_eq!(
        pairs,
        vec![("server".to_string(), addr(10, 10, 10, 2)), ("client".to_string(), addr(10, 10, 10, 3))]
    );
    assert_eq!(parse_service_ids("kollaps_server_10-10-10-2\nbroken\n"), None);
    assert_eq!(parse_service_ids(""), Some(vec![]));
}

#[test]
fn addresses_of_a_name() {
    let pairs = vec![
        ("a".to_string(), 1),
        ("b".to_string(), 2),
        ("a".to_string(), 3),
    ];
    assert_eq!(addresses_named(&pairs, &"a".to_string()), vec![1, 3]);
    assert_eq!(addresses_named(&pairs, &"c".to_string()), Vec::<u32>::new());
}

#[test]
fn listings_split_dashboard() {
    let services = vec![
        ("server".to_string(), "kollaps_server_10-10-10-2".to_string()),
        ("dashboard".to_string(), "kollaps_dashboard_10-10-10-3".to_string()),
        ("client".to_string(), "kollaps_client_10-10-10-4".to_string()),
    ];
    let (topo, dash) = topology_listings(&services);
    assert_eq!(topo, "kollaps_server_10-10-10-2\nkollaps_client_10-10-10-4\n");
    assert_eq!(dash, "kollaps_dashboard_10-10-10-3\n");
}

#[test]
fn written_listing_reads_back() {
    let entries = [("web_server", addr(10, 10, 10, 2)), ("db", addr(10, 10, 10, 3))];
    let ids: Vec<String> = entries.iter().map(|(n, a)| ready_service_id(n, *a)).collect();
    let text = listing_text(&ids);
    let back = parse_service_ids(&text).unwrap();
    assert_eq!(
        back,
        vec![("web-server".to_string(), addr(10, 10, 10, 2)), ("db".to_string(), addr(10, 10, 10, 3))]
    );
}

fn alist() -> Vec<(String, u32)> {
    vec![
        ("server".to_string(), addr(10, 10, 10, 5)),
        ("server".to_string(), addr(10, 10, 10, 6)),
        ("client".to_string(), addr(10, 10, 10, 7)),
    ]
}

#[test]
fn command_variables_become_addresses() {
    let args = parse_command("-c $server", &alist());
    assert_eq!(args, vec!["-c".to_string(), "10.10.10.5".to_string()]);
}

#[test]
fn command_replica_numbers() {
    let args = parse_command("$server2 $server1 $client", &alist());
    assert_eq!(args, vec!["10.10.10.6", "10.10.10.5", "10.10.10.7"]);
}

#[test]
fn command_missing_replica_left_as_is() {
    let args = parse_command("$server3", &alist());
    assert_eq!(args, vec!["$server3"]);
}

#[test]
fn command_replica_zero_left_as_is() {
    assert_eq!(parse_command("x $server0", &alist()), vec!["x", "$server0"]);
}

#[test]
fn command_unicode_whitespace_separates() {
    assert_eq!(parse_command("a\u{3000}b\u{a0}c\u{2009}d", &alist()), vec!["a", "b", "c", "d"]);
    assert_eq!(parse_command("ab", &alist()), vec!["ab"]);
    assert_eq!(parse_command("a\u{200b}b", &alist()), vec!["a\u{200b}b"]);
}

#[test]
fn command_words_and_plain_arguments() {
    let args = parse_command("  iperf3\t-s   -p 5001\n", &alist());
    assert_eq!(args, vec!["iperf3", "-s", "-p", "5001"]);
    assert_eq!(parse_command("", &alist()), Vec::<String>::new());
    let args = parse_command("$unknown $serverx", &alist());
    assert_eq!(args, vec!["$unknown".to_string(), "10.10.10.5".to_string()]);
    let args = parse_command("$server+2", &alist());
    assert_eq!(args, vec!["10.10.10.6"]);
}

#[test]
fn namespace_leases() {
    let mut pool = LeasePool::new(addr(10, 10, 10, 0), 24);
    assert_eq!(pool.mask(), 0xffff_ff00);
    let first = pool.next_namespace().ok().unwrap();
    assert_eq!(first.name, "k_ns_0");
    assert_eq!(first.veth, "k_veth_0");
    assert_eq!(first.veth_peer, "k_veth_0_p");
    assert_eq!(first.addr, addr(10, 10, 10, 2));
    pool.record_lease();
    let second = pool.next_namespace().ok().unwrap();
    assert_eq!(second.name, "k_ns_1");
    assert_eq!(second.addr, addr(10, 10, 10, 3));
}

#[test]
fn namespace_subnet_full() {
    let mut pool = LeasePool::new(addr(10, 10, 10, 0), 30);
    assert_eq!(pool.mask(), 0xffff_fffc);
    assert!(pool.next_namespace().is_ok());
    pool.record_lease();
    assert_eq!(pool.next_namespace().err(), Some(SubnetFull));
    let none = LeasePool::new(addr(10, 0, 0, 0), 0);
    assert_eq!(none.mask(), 0);
}

#[test]
fn numbers_as_std_reads_them() {
    let cs = |s: &str| -> Vec<char> { s.chars().collect() };
    assert_eq!(parse_usize(&cs("42")), Some(42));
    assert_eq!(parse_usize(&cs("+7")), Some(7));
    assert_eq!(parse_usize(&cs("007")), Some(7));
    assert_eq!(parse_usize(&cs("+")), None);
    assert_eq!(parse_usize(&cs("")), None);
    assert_eq!(parse_usize(&cs("-1")), None);
    assert_eq!(parse_usize(&cs("1 ")), None);
    assert_eq!(parse_u32(&cs("4294967295")), Some(u32::MAX));
    assert_eq!(parse_u32(&cs("4294967296")), None);
    let w = split_words(&cs(" a  bc\td "));
    assert_eq!(w, vec![vec!['a'], vec!['b', 'c'], vec!['d']]);
}

#[test]
fn listed_identifiers_give_replica_addresses() {
    let mut g = Graph::new();
    let mut nodes = Vec::new();
    g.insert_service(&mut nodes, "web".to_string(), false, false, 2, None, vec![], None, None, None);
    g.insert_service(&mut nodes, "web".to_string(), false, false, 2, None, vec![], None, None, None);
    g.insert_service(&mut nodes, "db".to_string(), false, false, 1, None, vec![], None, None, None);
    let text = format!(
        "{}\n{}\n{}\n",
        ready_service_id("web", addr(10, 0, 0, 7)),
        ready_service_id("db", addr(10, 0, 0, 9)),
        ready_service_id("web", addr(10, 0, 0, 8))
    );
    assert_eq!(g.resolve_listed(&mut nodes, "web_x\n"), Err(ResolveError::BadId));
    assert_eq!(g.resolve_listed(&mut nodes, &format!("{}\n", ready_service_id("db", addr(1, 2, 3, 4)))), Err(ResolveError::CountMismatch));
    assert_eq!(g.resolve_listed(&mut nodes, &text), Ok(()));
    let web = g.get_service_nodes(&"web".to_string()).unwrap().clone();
    assert_eq!(nodes[web[0]].ip, addr(10, 0, 0, 7));
    assert_eq!(nodes[web[0]].replica_id, 0);
    assert_eq!(nodes[web[1]].ip, addr(10, 0, 0, 8));
    assert_eq!(nodes[web[1]].replica_id, 1);
    let db = g.get_service_nodes(&"db".to_string()).unwrap().clone();
    assert_eq!(nodes[db[0]].ip, addr(10, 0, 0, 9));
    assert_eq!(g.ips.len(), 3);
}
