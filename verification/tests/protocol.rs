use kollaps::address::convert_to_int;
use kollaps::commands::{endpoint, endpoints, parse_command_word, usage_delta, Command, PathFlowData, ACK};
use kollaps::monitor::{
    message_from_event, packet_destination, usage_step, Message, EVENT_LEN, REPORT_INTERVAL_NS,
};
use kollaps::setup::{all_started, SetupMessage};

#[test]
fn setup_count_bytes_low_byte_first() {
    let bytes: [u8; 3] = SetupMessage::ServiceCount(0x0102).into();
    assert_eq!(bytes, [0x02, 0x01, 0x00]);
}

#[test]
fn setup_terminate_bytes() {
    let bytes: [u8; 3] = SetupMessage::Terminate.into();
    assert_eq!(bytes, [0, 0, 1]);
}

#[test]
fn setup_decodes_count_and_terminate() {
    assert_eq!(SetupMessage::from([5, 0, 0]), SetupMessage::ServiceCount(5));
    assert_eq!(SetupMessage::from([0xff, 0xff, 7]), SetupMessage::ServiceCount(0xffff));
    assert_eq!(SetupMessage::from([9, 9, 1]), SetupMessage::Terminate);
}

#[test]
fn setup_roundtrip_every_count() {
    for n in [0u16, 1, 255, 256, 1000, u16::MAX] {
        let bytes: [u8; 3] = SetupMessage::ServiceCount(n).into();
        assert_eq!(SetupMessage::from(bytes), SetupMessage::ServiceCount(n));
    }
    let bytes: [u8; 3] = SetupMessage::Terminate.into();
    assert_eq!(SetupMessage::from(bytes), SetupMessage::Terminate);
}

#[test]
fn address_from_octets() {
    assert_eq!(convert_to_int([10, 10, 10, 5]), 0x0a0a0a05);
    assert_eq!(convert_to_int([192, 168, 1, 1]), 3232235777);
    assert_eq!(convert_to_int([0, 0, 0, 0]), 0);
    assert_eq!(convert_to_int([255, 255, 255, 255]), u32::MAX);
}

#[test]
fn address_distinct_octets_distinct_numbers() {
    assert_ne!(convert_to_int([10, 0, 0, 1]), convert_to_int([1, 0, 0, 10]));
}

#[test]
fn command_bytes() {
    assert_eq!(Command::Shutdown.to_byte(), 2);
    assert_eq!(Command::Ready.to_byte(), 3);
    assert_eq!(Command::Start.to_byte(), 4);
    assert_eq!(ACK, 120);
}

#[test]
fn command_from_bytes() {
    assert_eq!(Command::from_byte(2), Some(Command::Shutdown));
    assert_eq!(Command::from_byte(3), Some(Command::Ready));
    assert_eq!(Command::from_byte(4), Some(Command::Start));
    assert_eq!(Command::from_byte(0), None);
    assert_eq!(Command::from_byte(120), None);
}

#[test]
fn command_roundtrip() {
    for c in [Command::Shutdown, Command::Ready, Command::Start] {
        assert_eq!(Command::from_byte(c.to_byte()), Some(c));
    }
}

#[test]
fn command_words() {
    assert_eq!(parse_command_word("ready"), Some(Command::Ready));
    assert_eq!(parse_command_word("start"), Some(Command::Start));
    assert_eq!(parse_command_word("stop"), Some(Command::Shutdown));
    assert_eq!(parse_command_word("Start"), None);
    assert_eq!(parse_command_word(""), None);
    assert_eq!(parse_command_word("starts"), None);
}

#[test]
fn endpoints_of_instances() {
    let controller = "10.0.0.1".to_string();
    assert_eq!(endpoint(&"10.0.0.2".to_string(), &controller), "10.0.0.2:7073");
    assert_eq!(endpoint(&controller, &controller), "0.0.0.0:7073");
    let all = endpoints(&vec!["10.0.0.1".to_string(), "10.0.0.3".to_string()], &controller);
    assert_eq!(all, vec!["0.0.0.0:7073".to_string(), "10.0.0.3:7073".to_string()]);
}

#[test]
fn flow_link_counts() {
    let ok = PathFlowData { bandwidth: 0, links: vec![1, 2, 3] };
    assert!(ok.links_len_ok());
    let empty = PathFlowData { bandwidth: 0, links: vec![] };
    assert!(!empty.links_len_ok());
    let long = PathFlowData { bandwidth: 0, links: vec![0; 254] };
    assert!(!long.links_len_ok());
    let longest = PathFlowData { bandwidth: 0, links: vec![0; 253] };
    assert!(longest.links_len_ok());
}

#[test]
fn usage_deltas() {
    assert_eq!(usage_delta(100, 250), 150);
    assert_eq!(usage_delta(250, 100), 100);
    assert_eq!(usage_delta(7, 7), 0);
}

fn ipv4_frame(dst: [u8; 4]) -> Vec<u8> {
    let mut f = vec![0u8; 34];
    f[12] = 8;
    f[13] = 0;
    f[30..34].copy_from_slice(&dst);
    f
}

#[test]
fn destination_of_ipv4_frame() {
    let f = ipv4_frame([10, 1, 2, 3]);
    assert_eq!(packet_destination(&f).map(|a| a.addr), Some(0x0a010203));
}

#[test]
fn destination_of_other_frames() {
    let mut arp = ipv4_frame([10, 1, 2, 3]);
    arp[13] = 6;
    assert!(packet_destination(&arp).is_none());
    assert!(packet_destination(&[0u8; 13]).is_none());
    let mut short = vec![0u8; 20];
    short[12] = 8;
    assert!(packet_destination(&short).is_none());
}

#[test]
fn usage_first_packet_starts_the_clock() {
    let s = usage_step(7, None, None, 1000, 60);
    assert_eq!(s.report, None);
    assert_eq!(s.usage, None);
    assert_eq!(s.time, Some(1000));
}

#[test]
fn usage_second_packet_starts_the_count() {
    let s = usage_step(7, Some(1000), None, 2000, 60);
    assert_eq!(s.report, None);
    assert_eq!(s.usage, Some(60));
    assert_eq!(s.time, None);
}

#[test]
fn usage_reports_after_the_interval() {
    let s = usage_step(7, Some(1000), Some(100), 1000 + REPORT_INTERVAL_NS + 1, 60);
    assert_eq!(s.report, Some(Message { dst: 7, bytes: 160 }));
    assert_eq!(s.usage, Some(160));
    assert_eq!(s.time, Some(1000 + REPORT_INTERVAL_NS + 1));
    let quiet = usage_step(7, Some(1000), Some(100), 1000 + REPORT_INTERVAL_NS, 60);
    assert_eq!(quiet.report, None);
    assert_eq!(quiet.usage, Some(160));
    assert_eq!(quiet.time, None);
}

#[test]
fn usage_count_wraps() {
    let s = usage_step(1, Some(0), Some(u32::MAX), u64::MAX, 2);
    assert_eq!(s.usage, Some(1));
    assert_eq!(s.report, Some(Message { dst: 1, bytes: 1 }));
}

#[test]
fn event_messages_are_little_endian() {
    let ev: [u8; EVENT_LEN] = [5, 3, 2, 1, 0x10, 0, 0, 0, 0, 0, 0, 0];
    assert_eq!(message_from_event(&ev), Some(Message { dst: 0x01020305, bytes: 16 }));
    assert_eq!(message_from_event(&ev[..11]), None);
}

#[test]
fn setup_ends_when_every_service_started() {
    assert!(all_started(2, &vec![3, 5], 10));
    assert!(!all_started(2, &vec![3, 4], 10));
    assert!(!all_started(2, &vec![3, 6], 10));
    assert!(all_started(4, &vec![], 4));
    assert!(!all_started(0, &vec![u16::MAX, u16::MAX], 7));
}
