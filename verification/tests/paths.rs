use kollaps::elements::{LinkProps, Service};
use kollaps::graph::Graph;
use kollaps::schedule::{schedule_bridge_join, schedule_bridge_leave, schedule_link_join, schedule_link_leave, EventKind};
use kollaps::shaping::Shaping;
use kollaps::shortest::{parse_path_metric, PathMetric};
use kollaps::state::{PathChange, State};

fn addr(d: u8) -> u32 {
    u32::from_be_bytes([10, 0, 0, d])
}

fn props(latency: u32) -> LinkProps {
    LinkProps { latency, jitter: 0, drop: 0, bandwidth: 1000 }
}

fn add_service(g: &mut Graph, nodes: &mut Vec<Service>, name: &str, ip: u32) {
    g.insert_service(nodes, name.to_string(), false, true, 1, Some(ip), vec![], None, None, None);
}

fn link_both(g: &mut Graph, nodes: &mut Vec<Service>, a: &str, b: &str) {
    g.insert_link(nodes, props(1), &a.to_string(), &b.to_string());
    g.insert_link(nodes, props(1), &b.to_string(), &a.to_string());
}

/// a - b - c, with a bridge s between b and d:  a - b - s - d.
fn chain() -> (Graph, Vec<Service>) {
    let mut g = Graph::new();
    let mut nodes = Vec::new();
    add_service(&mut g, &mut nodes, "a", addr(1));
    add_service(&mut g, &mut nodes, "b", addr(2));
    add_service(&mut g, &mut nodes, "c", addr(3));
    add_service(&mut g, &mut nodes, "d", addr(4));
    g.insert_bridge(&mut nodes, "s".to_string(), addr(100));
    link_both(&mut g, &mut nodes, "a", "b");
    link_both(&mut g, &mut nodes, "b", "c");
    link_both(&mut g, &mut nodes, "b", "s");
    link_both(&mut g, &mut nodes, "s", "d");
    (g, nodes)
}

fn path_links(g: &Graph, ip: u32) -> Option<Vec<u16>> {
    let id = g.get_path_id_from_ip(ip)?;
    g.get_path(id).map(|p| p.links.clone())
}

#[test]
fn links_are_numbered_and_attached() {
    let (g, nodes) = chain();
    assert_eq!(g.link_counter, 8);
    assert_eq!(nodes[0].links, vec![0]);
    assert_eq!(nodes[1].links, vec![1, 2, 4]);
    assert_eq!(g.get_nodes(&"s".to_string()), vec![4]);
}

#[test]
fn root_must_be_a_service() {
    let (mut g, _nodes) = chain();
    assert!(g.set_graph_root(addr(9)).is_err());
    assert_eq!(g.graph_root, None);
    assert!(g.set_graph_root(addr(1)).is_ok());
    assert_eq!(g.graph_root, Some(0));
}

#[test]
fn shortest_paths_by_hops() {
    let (mut g, nodes) = chain();
    g.set_graph_root(addr(1)).unwrap();
    assert!(g.shortest_paths_ready(&nodes));
    assert!(g.try_calculate_shortest_paths(&nodes));
    assert_eq!(path_links(&g, addr(1)), Some(vec![]));
    assert_eq!(path_links(&g, addr(2)), Some(vec![0]));
    assert_eq!(path_links(&g, addr(3)), Some(vec![0, 2]));
    assert_eq!(path_links(&g, addr(4)), Some(vec![0, 4, 6]));
    let id = g.get_path_id_from_ip(addr(4)).unwrap();
    let p = g.get_path(id).unwrap();
    assert_eq!(p.start, "a");
    assert_eq!(p.finish, "d");
    assert_eq!(g.get_ip_from_path_id(id), addr(4));
}

#[test]
fn shortest_paths_need_a_root() {
    let (mut g, nodes) = chain();
    assert!(!g.shortest_paths_ready(&nodes));
    assert!(!g.try_calculate_shortest_paths(&nodes));
    assert_eq!(g.path_counter, 0);
}

#[test]
fn shortest_path_takes_the_fewest_links() {
    let mut g = Graph::new();
    let mut nodes = Vec::new();
    add_service(&mut g, &mut nodes, "a", addr(1));
    add_service(&mut g, &mut nodes, "b", addr(2));
    add_service(&mut g, &mut nodes, "c", addr(3));
    link_both(&mut g, &mut nodes, "a", "b");
    link_both(&mut g, &mut nodes, "b", "c");
    link_both(&mut g, &mut nodes, "a", "c");
    g.set_graph_root(addr(1)).unwrap();
    assert!(g.try_calculate_shortest_paths(&nodes));
    assert_eq!(path_links(&g, addr(3)).map(|l| l.len()), Some(1));
}

#[test]
fn path_metric_words() {
    assert_eq!(parse_path_metric("hop"), Some(PathMetric::Hops));
    assert_eq!(parse_path_metric("latency"), Some(PathMetric::Latency));
    assert_eq!(parse_path_metric("hops"), None);
}

#[test]
fn link_leave_cuts_the_far_side() {
    let (mut g, mut nodes) = chain();
    g.set_graph_root(addr(1)).unwrap();
    let (mut next, event) = schedule_link_leave(&g, &mut nodes, 7, &"b".to_string(), &"c".to_string());
    assert_eq!(event.kind, EventKind::NextGraph);
    assert_eq!(event.time, 7);
    assert_eq!(next.removed_links.len(), 1);
    assert_eq!(next.removed_links[0].id, 2);
    assert!(next.try_calculate_shortest_paths(&nodes));
    assert_eq!(path_links(&next, addr(3)), None);
    assert_eq!(path_links(&next, addr(4)), Some(vec![0, 4, 6]));
    assert!(g.links.contains_key(&2));
}

#[test]
fn bridge_leave_and_join() {
    let (mut g, nodes) = chain();
    g.set_graph_root(addr(1)).unwrap();
    let (mut next, event) = schedule_bridge_leave(&g, &nodes, 9, &"s".to_string());
    assert_eq!(event.time, 9);
    assert!(next.try_calculate_shortest_paths(&nodes));
    assert_eq!(path_links(&next, addr(4)), None);
    assert_eq!(path_links(&next, addr(3)), Some(vec![0, 2]));
}

fn state_with_two_ages() -> (State, Vec<Service>) {
    let (mut g, mut nodes) = chain();
    g.set_graph_root(addr(1)).unwrap();
    assert!(g.try_calculate_shortest_paths(&nodes));
    let mut st = State::new("ec".to_string());
    st.graphs.push(g);
    st.graph_counter = 1;
    let (mut next, _) = schedule_link_leave(&st.graphs[0], &mut nodes, 5, &"b".to_string(), &"c".to_string());
    assert!(next.try_calculate_shortest_paths(&nodes));
    st.graphs.push(next);
    st.graph_counter = 2;
    (st, nodes)
}

#[test]
fn path_changes_block_and_carry() {
    let (st, nodes) = state_with_two_ages();
    let changes = st.path_change_plan(&nodes).unwrap();
    assert!(changes.contains(&PathChange::Block { ip: addr(3) }));
    let carried: Vec<u32> = changes
        .iter()
        .filter_map(|c| match c {
            PathChange::Carry { ip, .. } => Some(*ip),
            _ => None,
        })
        .collect();
    assert!(carried.contains(&addr(2)));
    assert!(carried.contains(&addr(4)));
    assert!(!carried.contains(&addr(1)));
    assert!(!changes.iter().any(|c| matches!(c, PathChange::Apply { .. })));
}

#[test]
fn carry_copies_bandwidth_figures() {
    let (mut st, _nodes) = state_with_two_ages();
    let from = st.graphs[0].get_path_id_from_ip(addr(2)).unwrap();
    let to = st.graphs[1].get_path_id_from_ip(addr(2)).unwrap();
    let links_before = st.graphs[1].get_path(to).unwrap().links.clone();
    st.graphs[0].set_path_bandwidths(from, 11, 22);
    st.carry_bandwidth(from, to);
    let p = st.graphs[1].get_path(to).unwrap();
    assert_eq!(p.metrics.used_bandwidth, 11);
    assert_eq!(p.metrics.current_bandwidth, 22);
    assert_eq!(p.links, links_before);
}

#[test]
fn shaping_without_active_paths_opens_every_service_path() {
    let (st, nodes) = state_with_two_ages();
    let plan = st.shaping(&nodes).unwrap();
    let id = |ip: u32| st.graphs[0].get_path_id_from_ip(ip).unwrap();
    assert!(plan.contains(&Shaping::Disable { ip: addr(1) }));
    assert!(plan.contains(&Shaping::Enable { ip: addr(2), path: id(addr(2)) }));
    assert!(plan.contains(&Shaping::Enable { ip: addr(3), path: id(addr(3)) }));
    assert!(plan.contains(&Shaping::Enable { ip: addr(4), path: id(addr(4)) }));
    assert!(!plan.iter().any(|s| matches!(s, Shaping::Enable { ip, .. } if *ip == addr(100))));
}

#[test]
fn shaping_with_active_paths() {
    let (mut st, mut nodes) = state_with_two_ages();
    nodes[0].set_activepaths(vec!["c".to_string()]);
    nodes[3].set_activepaths(vec!["a".to_string()]);
    let plan = st.shaping(&nodes).unwrap();
    let id = |ip: u32| st.graphs[0].get_path_id_from_ip(ip).unwrap();
    assert_eq!(
        plan,
        vec![
            Shaping::Enable { ip: addr(3), path: id(addr(3)) },
            Shaping::Enable { ip: addr(4), path: id(addr(4)) },
        ]
    );
    st.age = 1;
    assert_eq!(st.shaping(&nodes), None);
}

#[test]
fn usages_move_to_the_next_graph() {
    let (mut st, mut nodes) = state_with_two_ages();
    nodes[1].last_bytes = 500;
    st.insert_active_path_id(addr(2));
    st.insert_active_path_id(addr(2));
    st.insert_active_path_id(addr(1));
    assert_eq!(st.active_paths_ids.len(), 1);
    st.advance_age(&mut nodes);
    assert_eq!(st.age, 1);
    assert!(st.active_paths_ids.is_empty());
    assert_eq!(nodes[1].last_bytes, 500);
}

#[test]
fn active_paths_and_lookups() {
    let (mut st, _nodes) = state_with_two_ages();
    assert!(st.get_active_paths().unwrap().is_empty());
    st.insert_active_path_id(addr(3));
    let id = st.graphs[0].get_path_id_from_ip(addr(3)).unwrap();
    let paths = st.get_active_paths().unwrap();
    assert_eq!(paths.len(), 1);
    assert_eq!(paths[0].id, id);
    assert_eq!(st.get_path(id).map(|p| p.links.clone()), Some(vec![0, 2]));
    assert_eq!(st.get_link(2).map(|l| (l.source, l.destination)), Some((1, 2)));
    assert!(st.get_link(99).is_none());
}

#[test]
fn flows_accumulate_by_first_and_last_link() {
    let (mut st, _nodes) = state_with_two_ages();
    st.graphs[0].collect_flow_u16(10, 2, vec![4, 6, 9]);
    let f = st.get_flow_u16(&"4:6".to_string()).unwrap();
    assert_eq!(f.bandwidth, 10);
    assert_eq!(f.link_indices, vec![4, 6, 9]);
    assert_eq!(f.age, 0);
    st.graphs[0].collect_flow_u16(20, 2, vec![4, 6]);
    let f = st.get_flow_u16(&"4:6".to_string()).unwrap();
    assert_eq!(f.bandwidth, 20);
    assert_eq!(f.link_indices, vec![4, 6, 9]);
    assert!(st.get_flow_u16(&"4:7".to_string()).is_none());
}

#[test]
fn copies_know_names_and_joins() {
    let (g, nodes) = chain();
    assert_eq!(g.copied_nodes(&nodes, &"b".to_string()), vec![1]);
    assert_eq!(g.copied_nodes(&nodes, &"s".to_string()), vec![4]);
    assert!(g.copied_nodes(&nodes, &"zz".to_string()).is_empty());
    assert!(g.copied_has_bridge(&nodes, &"s".to_string()));
    assert!(!g.copied_has_bridge(&nodes, &"b".to_string()));
}

#[test]
fn joining_takes_back_exactly_the_matching_links() {
    let (mut g, mut nodes) = chain();
    g.set_graph_root(addr(1)).unwrap();
    let b = "b".to_string();
    let c = "c".to_string();
    g.insert_link(&mut nodes, props(9), &b, &c);
    let (left, _) = schedule_link_leave(&g, &mut nodes, 1, &b, &c);
    let (left2, _) = schedule_link_leave(&left, &mut nodes, 2, &"a".to_string(), &b);
    assert_eq!(left2.removed_links.len(), 3);
    let (back, _, existed) = schedule_link_join(&left2, &mut nodes, 3, &b, &c);
    assert!(existed);
    let rest: Vec<(usize, usize)> = back.removed_links.iter().map(|l| (l.source, l.destination)).collect();
    assert_eq!(rest, vec![(0, 1)]);
}

#[test]
fn link_leave_then_join_restores_the_links() {
    let (mut g, mut nodes) = chain();
    g.set_graph_root(addr(1)).unwrap();
    let b = "b".to_string();
    let c = "c".to_string();
    let (left, _) = schedule_link_leave(&g, &mut nodes, 3, &b, &c);
    assert!(!left.links.contains_key(&2));
    let (mut back, event, existed) = schedule_link_join(&left, &mut nodes, 4, &b, &c);
    assert!(existed);
    assert_eq!(event.kind, EventKind::NextGraph);
    assert_eq!(back.removed_links.len(), 0);
    assert_eq!(back.links.len(), g.links.len());
    for id in 0..8u16 {
        assert_eq!(back.links.get(&id).map(|l| (l.source, l.destination)), g.links.get(&id).map(|l| (l.source, l.destination)));
    }
    assert!(back.try_calculate_shortest_paths(&nodes));
    assert_eq!(path_links(&back, addr(3)), Some(vec![0, 2]));
}

#[test]
fn bridge_leave_then_join_restores_the_bridges() {
    let (mut g, nodes) = chain();
    g.set_graph_root(addr(1)).unwrap();
    let s = "s".to_string();
    let (left, _) = schedule_bridge_leave(&g, &nodes, 9, &s);
    assert!(left.removed_bridges.contains_key(&s));
    let (mut back, event) = schedule_bridge_join(&left, &nodes, 10, &s);
    assert_eq!(event.time, 10);
    assert!(!back.removed_bridges.contains_key(&s));
    assert_eq!(back.bridges_by_name.get(&s).cloned(), left.removed_bridges.get(&s).cloned());
    assert!(back.try_calculate_shortest_paths(&nodes));
    assert_eq!(path_links(&back, addr(4)), Some(vec![0, 4, 6]));
}

#[test]
fn next_age_carries_and_moves_on() {
    let (mut st, mut nodes) = state_with_two_ages();
    let from = st.graphs[0].get_path_id_from_ip(addr(2)).unwrap();
    let to = st.graphs[1].get_path_id_from_ip(addr(2)).unwrap();
    st.graphs[0].set_path_bandwidths(from, 11, 22);
    st.active_paths_ids.push(from);
    let changes = st.next_age(&mut nodes).unwrap();
    assert!(changes.contains(&PathChange::Block { ip: addr(3) }));
    assert_eq!(st.age, 1);
    assert!(st.active_paths_ids.is_empty());
    let p = st.graphs[1].get_path(to).unwrap();
    assert_eq!(p.metrics.used_bandwidth, 11);
    assert_eq!(p.metrics.current_bandwidth, 22);
}

#[test]
fn root_gets_the_first_new_path() {
    let (mut g, nodes) = chain();
    g.set_graph_root(addr(2)).unwrap();
    let first = g.path_counter;
    assert!(g.try_calculate_shortest_paths(&nodes));
    assert_eq!(g.get_path_id_from_ip(addr(2)), Some(first));
    assert_eq!(g.get_path(first).unwrap().links, Vec::<u16>::new());
}

#[test]
fn flows_age_and_are_forgotten() {
    let (mut st, _nodes) = state_with_two_ages();
    st.graphs[0].collect_flow_u16(10, 2, vec![4, 6]);
    st.graphs[0].collect_flow_u16(30, 1, vec![2]);
    let used = st.graphs[0].age_flows(2);
    assert_eq!(used, vec![(vec![4, 6], 10), (vec![2], 30)]);
    assert_eq!(st.get_flow_u16(&"4:6".to_string()).unwrap().age, 1);
    st.graphs[0].age_flows(2);
    let used = st.graphs[0].age_flows(2);
    assert!(used.is_empty());
    assert!(st.get_flow_u16(&"4:6".to_string()).is_none());
    assert!(!st.graphs[0].flow_accumulator_keys.contains_key(&"4:6".to_string()));
}

#[test]
fn no_dynamic_section_means_joining_at_the_start() {
    let v = kollaps::schedule::events_without_dynamic();
    assert_eq!(v.len(), 1);
    assert_eq!(v[0].kind, EventKind::Join);
    assert_eq!(f32::from_bits(v[0].time), 0.0);
}

#[test]
fn path_changes_carry_figures_and_keep_the_age() {
    let (mut st, nodes) = state_with_two_ages();
    let from = st.graphs[0].get_path_id_from_ip(addr(4)).unwrap();
    let to = st.graphs[1].get_path_id_from_ip(addr(4)).unwrap();
    st.graphs[0].set_path_bandwidths(from, 5, 6);
    st.graphs[1].set_path_bandwidths(to, 1, 2);
    let changes = st.path_changes(&nodes).unwrap();
    assert!(changes.contains(&PathChange::Carry { ip: addr(4), from, to }));
    assert_eq!(st.age, 0);
    assert_eq!(st.graphs.len(), 2);
    let p = st.graphs[1].get_path(to).unwrap();
    assert_eq!((p.metrics.used_bandwidth, p.metrics.current_bandwidth), (5, 6));
    let q = st.graphs[0].get_path(from).unwrap();
    assert_eq!((q.metrics.used_bandwidth, q.metrics.current_bandwidth), (5, 6));
}
