use kollaps::rules::{BlockKind, TopologyError};
use kollaps::xml::read_topology;

const TOPOLOGY: &str = r#"<?xml version="1.0" encoding="UTF-8" ?>
<experiment boot="kollaps:2.0">
    <services>
        <service name="client" image="iperf" command="-c $server"/>
        <!-- a comment among the services -->
        <service name="server" image="iperf" replicas="2"/>
    </services>
    <bridges>
        <bridge name="s1"/>
    </bridges>
    <links>
        <link origin="client" dest="s1" latency="10" upload="10Mbps" network="kollaps_network"/>
    </links>
    <dynamic>
        <schedule name="client" time="0.0" action="join" amount="1"/>
    </dynamic>
</experiment>
"#;

#[test]
fn topology_blocks_and_elements() {
    let t = read_topology(TOPOLOGY).unwrap();
    assert_eq!(t.root.tag, "experiment");
    assert_eq!(t.root.attribute("boot"), Some("kollaps:2.0".to_string()));
    assert_eq!(t.blocks.services, Some(0));
    assert_eq!(t.blocks.bridges, Some(1));
    assert_eq!(t.blocks.links, Some(2));
    assert_eq!(t.blocks.dynamic, Some(3));
    assert_eq!(t.blocks.config, None);
    assert!(t.config.is_none());
    let services = t.services.unwrap();
    assert_eq!(services.len(), 2);
    assert_eq!(services[0].tag, "service");
    assert_eq!(services[0].attribute("command"), Some("-c $server".to_string()));
    assert_eq!(services[1].attribute("replicas"), Some("2".to_string()));
    assert_eq!(t.bridges.unwrap()[0].attribute("name"), Some("s1".to_string()));
    assert_eq!(t.links.unwrap()[0].attribute("upload"), Some("10Mbps".to_string()));
    assert_eq!(t.dynamic.unwrap()[0].attribute("action"), Some("join".to_string()));
}

#[test]
fn topology_text_must_be_xml() {
    assert_eq!(read_topology("<experiment boot='x'>").err(), Some(TopologyError::Malformed));
    assert_eq!(read_topology("not xml at all").err(), Some(TopologyError::Malformed));
}

#[test]
fn topology_root_checks() {
    assert_eq!(read_topology("<services/>").err(), Some(TopologyError::NotExperiment));
    assert_eq!(read_topology("<experiment/>").err(), Some(TopologyError::NoBoot));
    // the first node under the document is the root, even a comment
    assert_eq!(read_topology("<!-- c --><experiment boot='x'/>").err(), Some(TopologyError::NotExperiment));
    assert_eq!(
        read_topology("<experiment boot='x'><links/><links/></experiment>").err(),
        Some(TopologyError::Duplicate(BlockKind::Links))
    );
}

#[test]
fn namespaced_attributes_are_not_read() {
    let t = read_topology(
        "<experiment xmlns:k='urn:k' boot='x'><services><service k:name='a' name='b'/></services></experiment>",
    )
    .unwrap();
    let s = t.services.unwrap();
    assert_eq!(s[0].attribute("name"), Some("b".to_string()));
    assert_eq!(s[0].attributes.len(), 1);
}
