use ros2dds_routes::gid::Gid;
use ros2dds_routes::naming::{
    classify, full_name_of, is_message_for_action, ros2_message_type_to_dds_type, InterfaceKind,
    Part,
};
use ros2dds_routes::node_info::NodeInfo;

fn role(topic: &str, writer: bool) -> Option<(InterfaceKind, Part, String)> {
    classify(topic, writer).map(|r| (r.kind, r.part, r.name))
}

#[test]
fn topics_tell_the_role_of_an_endpoint() {
    assert_eq!(role("rt/tf", true), Some((InterfaceKind::MsgPub, Part::Message, "/tf".into())));
    assert_eq!(role("rt/tf", false), Some((InterfaceKind::MsgSub, Part::Message, "/tf".into())));
    assert_eq!(
        role("rq/addRequest", true),
        Some((InterfaceKind::ServiceCli, Part::Request, "/add".into()))
    );
    assert_eq!(
        role("rr/addReply", true),
        Some((InterfaceKind::ServiceSrv, Part::Reply, "/add".into()))
    );
    assert_eq!(
        role("rt/fib/_action/status", false),
        Some((InterfaceKind::ActionCli, Part::Status, "/fib".into()))
    );
    assert_eq!(
        role("rq/fib/_action/cancel_goalRequest", false),
        Some((InterfaceKind::ActionSrv, Part::CancelGoalRequest, "/fib".into()))
    );
    assert_eq!(role("rq/add", true), None);
    assert_eq!(role("other", true), None);
}

#[test]
fn full_names_have_one_slash_in_front_of_the_name() {
    assert_eq!(full_name_of("/", "talker"), "/talker");
    assert_eq!(full_name_of("/ns", "talker"), "/ns/talker");
}

#[test]
fn message_types_have_a_dds_name() {
    assert_eq!(
        ros2_message_type_to_dds_type("std_msgs/msg/String"),
        "std_msgs::msg::dds_::String_"
    );
    assert_eq!(ros2_message_type_to_dds_type("String"), "String_");
    assert_eq!(ros2_message_type_to_dds_type(""), "_");
}

#[test]
fn action_messages_are_told_by_their_name() {
    assert!(is_message_for_action("/fib/_action/status"));
    assert!(is_message_for_action("/fib/_action/feedback"));
    assert!(!is_message_for_action("/fib/_action/status2"));
    assert!(!is_message_for_action("/tf"));
}

#[test]
fn identifiers_are_written_in_hexadecimal_digits() {
    let mut bytes = [0u8; 16];
    bytes[0] = 0x0f;
    bytes[15] = 0xa1;
    let gid = Gid::from(bytes);
    assert_eq!(gid.to_hex(), "0f0000000000000000000000000000a1");
    assert_ne!(gid.to_hex(), Gid::from([0; 16]).to_hex());
}

#[test]
fn a_node_needs_a_name_that_can_stand_in_a_key() {
    let gid = Gid::from([0xab; 16]);
    let node = NodeInfo::create("/ns".to_string(), "talker".to_string(), gid).unwrap();
    assert_eq!(node.fullname(), "/ns/talker");
    assert_eq!(node.id(), format!("{}/ns/talker", "ab".repeat(16)));
    assert_eq!(node.admin_key(), format!("node/{}/ns/talker", "ab".repeat(16)));
    let e = NodeInfo::create("/".to_string(), "a?b".to_string(), gid).unwrap_err();
    assert_eq!(e, format!("not a valid key expression: {}/a?b", "ab".repeat(16)));
}
