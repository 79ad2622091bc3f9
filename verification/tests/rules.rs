use kollaps::rules::{
    bandwidth_parts, bridge_name, event_amount, experiment_blocks, link_ends, replica_action, schedule_check,
    schedule_steps, service_settings, BlockKind, Element, Mode, Step, TopologyError,
};
use kollaps::topology::ReplicaAction;

fn el(tag: &str, attrs: &[(&str, &str)]) -> Element {
    Element {
        tag: tag.to_string(),
        attributes: attrs.iter().map(|(k, v)| (k.to_string(), v.to_string())).collect(),
    }
}

#[test]
fn attributes_are_looked_up_by_name() {
    let e = el("service", &[("name", "web"), ("image", "nginx")]);
    assert_eq!(e.attribute("image"), Some("nginx".to_string()));
    assert_eq!(e.attribute("command"), None);
    assert!(e.has_attribute("name"));
    assert!(e.is("service"));
    assert!(!e.is("services"));
}

#[test]
fn experiment_blocks_found() {
    let root = el("experiment", &[("boot", "img")]);
    let children = vec![
        el("services", &[]),
        el("config", &[]),
        el("other", &[]),
        el("links", &[]),
        el("config", &[]),
        el("dynamic", &[]),
    ];
    let b = experiment_blocks(&root, &children).unwrap();
    assert_eq!(b.services, Some(0));
    assert_eq!(b.config, Some(1));
    assert_eq!(b.links, Some(3));
    assert_eq!(b.bridges, None);
    assert_eq!(b.dynamic, Some(5));
}

#[test]
fn experiment_refusals() {
    assert_eq!(experiment_blocks(&el("topology", &[("boot", "x")]), &vec![]), Err(TopologyError::NotExperiment));
    assert_eq!(experiment_blocks(&el("experiment", &[]), &vec![]), Err(TopologyError::NoBoot));
    let root = el("experiment", &[("boot", "img")]);
    let twice = vec![el("links", &[]), el("services", &[]), el("links", &[])];
    assert_eq!(experiment_blocks(&root, &twice), Err(TopologyError::Duplicate(BlockKind::Links)));
    let two_bridges = vec![el("bridges", &[]), el("bridges", &[])];
    assert_eq!(experiment_blocks(&root, &two_bridges), Err(TopologyError::Duplicate(BlockKind::Bridges)));
}

#[test]
fn service_settings_defaults() {
    let s = service_settings(Mode::Container, &el("service", &[("name", "web"), ("image", "nginx")])).ok().unwrap();
    assert!(s.paths.is_empty());
    assert!(!s.shared);
    assert!(!s.supervisor);
    assert_eq!(s.supervisor_port, 0);
    assert!(s.reuse);
    assert_eq!(s.replicas, 1);
}

#[test]
fn service_settings_read() {
    let e = el(
        "service",
        &[
            ("name", "dash"),
            ("image", "img"),
            ("activepaths", "['a','b']"),
            ("share", "true"),
            ("supervisor", "true"),
            ("port", "8088"),
            ("reuse", "false"),
            ("replicas", "+3"),
        ],
    );
    let s = service_settings(Mode::Container, &e).ok().unwrap();
    assert_eq!(s.paths, vec!["a".to_string(), "b".to_string()]);
    assert!(s.shared);
    assert!(s.supervisor);
    assert_eq!(s.supervisor_port, 8088);
    assert!(!s.reuse);
    assert_eq!(s.replicas, 3);
    let e = el("service", &[("name", "x"), ("share", "True"), ("port", "oops")]);
    let s = service_settings(Mode::Baremetal, &e).ok().unwrap();
    assert!(!s.shared);
    assert_eq!(s.supervisor_port, 0);
}

#[test]
fn service_refusals() {
    assert_eq!(service_settings(Mode::Container, &el("svc", &[])).err(), Some(TopologyError::InvalidServiceTag));
    assert_eq!(
        service_settings(Mode::Container, &el("service", &[("name", "x")])).err(),
        Some(TopologyError::ServiceNeedsNameAndImage)
    );
    assert_eq!(service_settings(Mode::Baremetal, &el("service", &[])).err(), Some(TopologyError::ServiceNeedsName));
    assert_eq!(
        service_settings(Mode::Baremetal, &el("service", &[("name", "x"), ("replicas", "-1")])).err(),
        Some(TopologyError::BadNumber)
    );
    assert_eq!(
        service_settings(Mode::Baremetal, &el("service", &[("name", "x"), ("supervisor", ""), ("port", "99999999999")])).err(),
        Some(TopologyError::BadNumber)
    );
}

#[test]
fn bridges_need_names() {
    assert_eq!(bridge_name(&el("bridge", &[("name", "s1")])), Ok("s1".to_string()));
    assert_eq!(bridge_name(&el("bridge", &[])), Err(TopologyError::BridgeNeedsName));
    assert_eq!(bridge_name(&el("link", &[("name", "s1")])), Err(TopologyError::InvalidBridgeTag));
}

#[test]
fn link_checks() {
    let full = el("link", &[("origin", "a"), ("dest", "b"), ("latency", "1"), ("upload", "1Mbps"), ("network", "n")]);
    assert_eq!(link_ends(Mode::Container, &full), Ok(("a".to_string(), "b".to_string())));
    let bare = el("link", &[("origin", "a"), ("dest", "b"), ("latency", "1"), ("upload", "1Mbps")]);
    assert_eq!(link_ends(Mode::Baremetal, &bare), Ok(("a".to_string(), "b".to_string())));
    assert_eq!(link_ends(Mode::Container, &bare), Err(TopologyError::IncompleteLink));
    assert_eq!(link_ends(Mode::Container, &el("link", &[("origin", "a")])), Err(TopologyError::LinkNeedsEnds));
    assert_eq!(
        link_ends(Mode::Container, &el("lnk", &[("origin", "a"), ("dest", "b")])),
        Err(TopologyError::InvalidLinkTag)
    );
}

#[test]
fn schedule_elements() {
    assert_eq!(schedule_check(&el("schedule", &[])), Ok(()));
    assert_eq!(schedule_check(&el("event", &[])), Err(TopologyError::InvalidScheduleTag));
    assert_eq!(event_amount(&el("schedule", &[])), Ok(1));
    assert_eq!(event_amount(&el("schedule", &[("amount", "4")])), Ok(4));
    assert_eq!(event_amount(&el("schedule", &[("amount", "two")])), Err(TopologyError::BadNumber));
    assert_eq!(replica_action(&"join".to_string()), Some(ReplicaAction::Join));
    assert_eq!(replica_action(&"crash".to_string()), Some(ReplicaAction::Crash));
    assert_eq!(replica_action(&"reconnect".to_string()), Some(ReplicaAction::Reconnect));
    assert_eq!(replica_action(&"quit".to_string()), None);
}

#[test]
fn bandwidth_digits_and_unit() {
    assert_eq!(bandwidth_parts("100Mbps"), Some(("100".to_string(), "M".to_string())));
    assert_eq!(bandwidth_parts("link of 5Gbps"), Some(("5".to_string(), "G".to_string())));
    assert_eq!(bandwidth_parts("10Kbps and 20Mbps"), Some(("10".to_string(), "K".to_string())));
    assert_eq!(bandwidth_parts("100mbps"), None);
    assert_eq!(bandwidth_parts("Mbps"), None);
    assert_eq!(bandwidth_parts("5Tbps 77Kbps"), Some(("77".to_string(), "K".to_string())));
    assert_eq!(bandwidth_parts("x0012Gbps"), Some(("0012".to_string(), "G".to_string())));
    assert_eq!(bandwidth_parts("12bps"), None);
    assert_eq!(bandwidth_parts("\u{0663}Mbps"), None);
}

#[test]
fn bridge_events_step() {
    let me = "client".to_string();
    let join = el("schedule", &[("name", "s1"), ("action", "join"), ("time", "5")]);
    assert_eq!(schedule_steps(&join, true, &me), Ok(vec![Step::BridgeJoin]));
    let leave = el("schedule", &[("name", "s1"), ("action", "leave"), ("time", "5")]);
    assert_eq!(schedule_steps(&leave, true, &me), Ok(vec![Step::BridgeLeave]));
    // a name that is not a bridge and not this service asks for nothing
    assert_eq!(schedule_steps(&leave, false, &me), Ok(vec![]));
}

#[test]
fn replica_events_step() {
    let me = "client".to_string();
    let crash = el("schedule", &[("name", "client"), ("action", "crash"), ("time", "10"), ("amount", "3")]);
    assert_eq!(schedule_steps(&crash, false, &me), Ok(vec![Step::Replicas(ReplicaAction::Crash, 3)]));
    let join = el("schedule", &[("name", "client"), ("action", "join"), ("time", "0")]);
    assert_eq!(schedule_steps(&join, false, &me), Ok(vec![Step::Replicas(ReplicaAction::Join, 1)]));
    let odd = el("schedule", &[("name", "client"), ("action", "dance")]);
    assert_eq!(schedule_steps(&odd, false, &me), Ok(vec![]));
    let bad = el("schedule", &[("name", "client"), ("action", "join"), ("amount", "two")]);
    assert_eq!(schedule_steps(&bad, false, &me), Err(TopologyError::BadNumber));
    // the amount of another service's event is not read
    let other = el("schedule", &[("name", "server"), ("action", "join"), ("amount", "two")]);
    assert_eq!(schedule_steps(&other, false, &me), Ok(vec![]));
}

#[test]
fn link_events_step() {
    let me = "client".to_string();
    let leave = el("schedule", &[("origin", "a"), ("dest", "b"), ("time", "1"), ("action", "leave")]);
    assert_eq!(schedule_steps(&leave, false, &me), Ok(vec![Step::LinkLeave]));
    let join = el("schedule", &[("origin", "a"), ("dest", "b"), ("time", "1"), ("action", "join")]);
    assert_eq!(schedule_steps(&join, false, &me), Ok(vec![Step::LinkJoin]));
    let change = el("schedule", &[("origin", "a"), ("dest", "b"), ("time", "1"), ("latency", "20")]);
    assert_eq!(schedule_steps(&change, false, &me), Ok(vec![Step::LinkChange]));
    // without a time a link event asks for nothing
    let untimed = el("schedule", &[("origin", "a"), ("dest", "b"), ("latency", "20")]);
    assert_eq!(schedule_steps(&untimed, false, &me), Ok(vec![]));
}
