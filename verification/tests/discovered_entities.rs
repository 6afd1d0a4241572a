use ros2dds_routes::dds::{DdsEntity, DdsParticipant};
use ros2dds_routes::discovered_entities::{AdminReply, DiscoveredEntities, EntityRef, EntityValue};
use ros2dds_routes::discovery_model::{AdminQueryError, ORPHAN_NODE_NAME};
use ros2dds_routes::events::ROS2DiscoveryEvent;
use ros2dds_routes::gid::Gid;
use ros2dds_routes::json::{Json, Member};
use ros2dds_routes::qos::{Ownership, OwnershipKind, Qos};
use ros2dds_routes::ros_discovery::{NodeEntitiesInfo, ParticipantEntitiesInfo};

fn participant() -> Gid {
    Gid::from([1; 16])
}

fn entity_of(participant: Gid, gid: u8, topic: &str) -> DdsEntity {
    DdsEntity::new(
        Gid::from([gid; 16]),
        participant,
        topic.to_string(),
        "std_msgs::msg::dds_::String_".to_string(),
        None,
        true,
        Qos::default(),
    )
    .expect("topic can stand in a key expression")
}

fn writer(gid: u8, topic: &str) -> DdsEntity {
    entity_of(participant(), gid, topic)
}

fn writer_of(participant: Gid, gid: u8, topic: &str) -> DdsEntity {
    entity_of(participant, gid, topic)
}

// Returns the node fullname that owns the publisher in a DiscoveredMsgPub event.
fn pub_node(event: &ROS2DiscoveryEvent) -> &str {
    match event {
        ROS2DiscoveryEvent::DiscoveredMsgPub(node, _) => node,
        other => panic!("expected DiscoveredMsgPub, got {other:?}"),
    }
}

// Returns the node fullname in an UndiscoveredMsgPub event.
fn unpub_node(event: &ROS2DiscoveryEvent) -> &str {
    match event {
        ROS2DiscoveryEvent::UndiscoveredMsgPub(node, _) => node,
        other => panic!("expected UndiscoveredMsgPub, got {other:?}"),
    }
}

// A declaration of one node with the given Writers and Readers.
fn declaration(
    participant: Gid,
    namespace: &str,
    name: &str,
    writers: &[u8],
    readers: &[u8],
) -> ParticipantEntitiesInfo {
    let mut node_info = NodeEntitiesInfo::new(namespace.to_string(), name.to_string());
    for w in writers {
        node_info.writer_gid_seq.insert(Gid::from([*w; 16]));
    }
    for r in readers {
        node_info.reader_gid_seq.insert(Gid::from([*r; 16]));
    }
    let mut part_info = ParticipantEntitiesInfo::new(participant);
    part_info
        .node_entities_info_seq
        .insert(node_info.full_name(), node_info);
    part_info
}

#[test]
fn orphan_writer_is_forwarded_once() {
    let mut entities = DiscoveredEntities::default();
    // A plain rt/ Writer that no node declares.
    assert!(entities.add_writer(writer(10, "rt/some/topic")).is_none());

    // First sweep forwards it under the synthetic orphan node.
    let events = entities.forward_orphan_writers();
    assert_eq!(events.len(), 1);
    assert_eq!(pub_node(&events[0]), format!("/{ORPHAN_NODE_NAME}"));

    // Second sweep is idempotent: already owned, so no new event.
    assert!(entities.forward_orphan_writers().is_empty());
}

#[test]
fn non_message_writers_are_not_forwarded() {
    let mut entities = DiscoveredEntities::default();
    entities.add_writer(writer(20, "rq/some/serviceRequest"));
    entities.add_writer(writer(21, "rr/some/serviceReply"));
    entities.add_writer(writer(22, "rt/some/action/_action/status"));
    entities.add_writer(writer(23, "rt/some/action/_action/feedback"));

    // None of these are plain message publishers: nothing is orphan-forwarded.
    assert!(entities.forward_orphan_writers().is_empty());
}

#[test]
fn orphaned_writer_is_not_reclaimed_by_a_late_node() {
    let mut entities = DiscoveredEntities::default();
    let w = writer(30, "rt/some/topic");
    let wgid = w.key();
    entities.add_writer(w);

    // Forwarded as orphan first.
    let events = entities.forward_orphan_writers();
    assert_eq!(events.len(), 1);
    assert_eq!(pub_node(&events[0]), format!("/{ORPHAN_NODE_NAME}"));

    // Later, a real node starts declaring the very same Writer GID.
    let mut node_info = NodeEntitiesInfo::new("/".to_string(), "real_node".to_string());
    node_info.writer_gid_seq.insert(wgid);
    let mut part_info = ParticipantEntitiesInfo::new(participant());
    part_info
        .node_entities_info_seq
        .insert(node_info.full_name(), node_info);

    // The sticky-orphan rule must hold: no duplicate DiscoveredMsgPub event...
    let events = entities.update_participant_info(part_info);
    assert!(
        events.is_empty(),
        "late claim must not re-route an already-orphaned Writer, got {events:?}"
    );

    // ...and the Writer stays owned by exactly the orphan node, not the real one.
    let orphan_owns = entities
        .node(&participant(), ORPHAN_NODE_NAME)
        .unwrap()
        .owns_msg_writer(&wgid);
    assert!(orphan_owns, "orphan node should still own the Writer");
    let real_owns = entities
        .node(&participant(), "/real_node")
        .map(|n| n.owns_msg_writer(&wgid))
        .unwrap_or(false);
    assert!(!real_owns, "real node must not also own the Writer");
}

// All participants' orphan nodes share one full name, so the end of one
// participant's Writer is told for that shared name while another participant
// still publishes, and no later sweep tells of the other one again.
#[test]
fn claim_shared_topic_orphan_collision_tears_down_and_never_recovers() {
    let p1 = Gid::from([1; 16]);
    let p2 = Gid::from([2; 16]);
    let mut entities = DiscoveredEntities::default();

    // Two participants each publish rt/tf; neither is declared by any node.
    let w1 = writer_of(p1, 40, "rt/tf");
    let w1gid = w1.key();
    entities.add_writer(w1);
    entities.add_writer(writer_of(p2, 41, "rt/tf"));

    // Both are orphan-forwarded, under the SAME node fullname.
    let events = entities.forward_orphan_writers();
    assert_eq!(events.len(), 2);
    let orphan_fullname = format!("/{ORPHAN_NODE_NAME}");
    assert_eq!(pub_node(&events[0]), orphan_fullname);
    assert_eq!(pub_node(&events[1]), orphan_fullname);

    // Participant 1's writer disappears (node restart / crash).
    let event = entities
        .remove_writer(&w1gid)
        .expect("removal of an orphan-owned writer must emit an event");
    assert_eq!(unpub_node(&event), orphan_fullname);

    assert!(
        entities.forward_orphan_writers().is_empty(),
        "sweep must not re-forward"
    );
}

#[test]
fn claim_rosout_and_parameter_events_are_orphan_forwarded() {
    let mut entities = DiscoveredEntities::default();
    entities.add_writer(writer(50, "rt/rosout"));
    entities.add_writer(writer(51, "rt/parameter_events"));

    let events = entities.forward_orphan_writers();
    assert_eq!(
        events.len(),
        2,
        "rosout/parameter_events are claimed by the orphan sweep"
    );
}

#[test]
fn claim_no_grace_period_for_participants_without_any_rdi() {
    let mut entities = DiscoveredEntities::default();
    // DDS discovery of the writer arrives; the participant has never sent
    // any ros_discovery_info (its rdi is in flight).
    entities.add_writer(writer(60, "rt/joy"));

    // One sweep tick later the writer is claimed.
    let events = entities.forward_orphan_writers();
    assert_eq!(events.len(), 1);
    assert_eq!(pub_node(&events[0]), format!("/{ORPHAN_NODE_NAME}"));

    // The real node's declaration arrives one poll tick later: too late.
    let mut node_info = NodeEntitiesInfo::new("/".to_string(), "joy_node".to_string());
    node_info.writer_gid_seq.insert(Gid::from([60; 16]));
    let mut part_info = ParticipantEntitiesInfo::new(participant());
    part_info
        .node_entities_info_seq
        .insert(node_info.full_name(), node_info);
    let events = entities.update_participant_info(part_info);
    assert!(
        events.is_empty(),
        "late-by-one-tick declaration is ignored; writer stays on the orphan node"
    );
}

#[test]
fn declared_writer_is_discovered_when_dds_reports_it() {
    let mut entities = DiscoveredEntities::default();
    let events = entities.update_participant_info(declaration(participant(), "/", "talker", &[7], &[]));
    assert!(events.is_empty());

    let event = entities.add_writer(writer(7, "rt/chatter")).expect("event");
    match event {
        ROS2DiscoveryEvent::DiscoveredMsgPub(node, interface) => {
            assert_eq!(node, "/talker");
            assert_eq!(interface.name, "/chatter");
            assert_eq!(interface.dds_type, "std_msgs::msg::dds_::String_");
        }
        other => panic!("got {other:?}"),
    }
    // it is claimed, so it is no orphan
    assert!(entities.forward_orphan_writers().is_empty());
    assert!(entities.node(&participant(), ORPHAN_NODE_NAME).is_none());
}

#[test]
fn declared_reader_is_discovered_after_dds_reported_it() {
    let mut entities = DiscoveredEntities::default();
    assert!(entities.add_reader(writer(8, "rt/chatter")).is_none());
    assert!(entities.get_reader(&Gid::from([8; 16])).is_some());
    let events = entities.update_participant_info(declaration(participant(), "/ns", "listener", &[], &[8]));
    assert_eq!(events.len(), 1);
    assert!(matches!(&events[0],
        ROS2DiscoveryEvent::DiscoveredMsgSub(node, i) if node == "/ns/listener" && i.name == "/chatter"));
    // declared again: nothing new
    let events = entities.update_participant_info(declaration(participant(), "/ns", "listener", &[], &[8]));
    assert!(events.is_empty());
    // gone
    let event = entities.remove_reader(&Gid::from([8; 16])).expect("event");
    assert!(matches!(event, ROS2DiscoveryEvent::UndiscoveredMsgSub(_, _)));
    assert!(entities.get_reader(&Gid::from([8; 16])).is_none());
    assert!(entities.remove_reader(&Gid::from([8; 16])).is_none());
}

#[test]
fn a_service_is_discovered_when_both_endpoints_are_there() {
    let mut entities = DiscoveredEntities::default();
    let events = entities.update_participant_info(declaration(participant(), "/", "server", &[2], &[3]));
    assert!(events.is_empty());
    assert!(entities.add_reader(writer(3, "rq/addRequest")).is_none());
    let event = entities.add_writer(writer(2, "rr/addReply")).expect("event");
    assert!(matches!(&event,
        ROS2DiscoveryEvent::DiscoveredServiceSrv(node, i) if node == "/server" && i.name == "/add"));
    let event = entities.remove_writer(&Gid::from([2; 16])).expect("event");
    assert!(matches!(&event, ROS2DiscoveryEvent::UndiscoveredServiceSrv(_, i) if i.name == "/add"));
}

#[test]
fn an_action_server_is_discovered_when_its_eight_endpoints_are_there() {
    let mut entities = DiscoveredEntities::default();
    entities.update_participant_info(declaration(
        participant(),
        "/",
        "fib",
        &[1, 2, 3, 4, 5],
        &[6, 7, 8],
    ));
    assert!(entities.add_writer(writer(1, "rr/fib/_action/send_goalReply")).is_none());
    assert!(entities.add_writer(writer(2, "rr/fib/_action/cancel_goalReply")).is_none());
    assert!(entities.add_writer(writer(3, "rr/fib/_action/get_resultReply")).is_none());
    assert!(entities.add_writer(writer(4, "rt/fib/_action/status")).is_none());
    assert!(entities.add_writer(writer(5, "rt/fib/_action/feedback")).is_none());
    assert!(entities.add_reader(writer(6, "rq/fib/_action/send_goalRequest")).is_none());
    assert!(entities.add_reader(writer(7, "rq/fib/_action/cancel_goalRequest")).is_none());
    let event = entities
        .add_reader(writer(8, "rq/fib/_action/get_resultRequest"))
        .expect("event");
    assert!(matches!(&event, ROS2DiscoveryEvent::DiscoveredActionSrv(_, i) if i.name == "/fib"));
}

#[test]
fn a_node_that_is_no_longer_declared_is_undiscovered() {
    let mut entities = DiscoveredEntities::default();
    entities.add_writer(writer(7, "rt/chatter"));
    entities.update_participant_info(declaration(participant(), "/", "talker", &[7], &[]));
    assert!(entities.node(&participant(), "/talker").is_some());

    let events = entities.update_participant_info(ParticipantEntitiesInfo::new(participant()));
    assert_eq!(events.len(), 1);
    assert_eq!(unpub_node(&events[0]), "/talker");
    assert!(entities.node(&participant(), "/talker").is_none());

    // its Writer is an orphan now
    let events = entities.forward_orphan_writers();
    assert_eq!(events.len(), 1);
    assert_eq!(pub_node(&events[0]), format!("/{ORPHAN_NODE_NAME}"));
    // and the orphan node stays, though it is never declared
    let events = entities.update_participant_info(ParticipantEntitiesInfo::new(participant()));
    assert!(events.is_empty());
    assert!(entities.node(&participant(), ORPHAN_NODE_NAME).is_some());
}

#[test]
fn an_orphan_is_not_claimed_by_a_node_of_another_participant() {
    let mut entities = DiscoveredEntities::default();
    entities.add_writer(writer(9, "rt/topic"));
    assert_eq!(entities.forward_orphan_writers().len(), 1);
    let other = Gid::from([2; 16]);
    let events = entities.update_participant_info(declaration(other, "/", "composer", &[9], &[]));
    assert!(events.is_empty());
    assert!(!entities.node(&other, "/composer").unwrap().owns_msg_writer(&Gid::from([9; 16])));
}

#[test]
fn a_node_with_an_incompatible_name_ends_the_declaration() {
    let mut entities = DiscoveredEntities::default();
    let mut info = declaration(participant(), "/", "first", &[], &[]);
    let bad = NodeEntitiesInfo::new("/".to_string(), "bad#name".to_string());
    info.node_entities_info_seq.insert(bad.full_name(), bad);
    let last = NodeEntitiesInfo::new("/".to_string(), "last".to_string());
    info.node_entities_info_seq.insert(last.full_name(), last);
    assert!(entities.update_participant_info(info).is_empty());
    assert!(entities.node(&participant(), "/first").is_some());
    assert!(entities.node(&participant(), "/bad#name").is_none());
    assert!(entities.node(&participant(), "/last").is_none());
}

#[test]
fn a_participant_takes_its_nodes_with_it() {
    let mut entities = DiscoveredEntities::default();
    entities.add_participant(DdsParticipant { key: participant(), qos: Qos::default() });
    entities.add_writer(writer(7, "rt/chatter"));
    entities.update_participant_info(declaration(participant(), "/", "talker", &[7], &[]));
    let events = entities.remove_participant(&participant());
    assert_eq!(events.len(), 1);
    assert_eq!(unpub_node(&events[0]), "/talker");
    assert!(entities.node(&participant(), "/talker").is_none());
    // the Writer itself is still known
    assert!(entities.get_writer(&Gid::from([7; 16])).is_some());
    assert!(entities.remove_participant(&participant()).is_empty());
}

#[test]
fn a_writer_that_comes_and_goes_leaves_no_trace() {
    let mut entities = DiscoveredEntities::default();
    let before = entities.describe();
    assert!(entities.add_writer(writer(7, "rt/chatter")).is_none());
    assert_ne!(entities.describe(), before);
    assert!(entities.remove_writer(&Gid::from([7; 16])).is_none());
    assert_eq!(entities.describe(), before);
}

const PREFIX: &str = "@/0123/ros2";

#[test]
fn exact_admin_query_finds_the_writer() {
    let mut entities = DiscoveredEntities::default();
    entities.add_writer(writer(0xab, "rt/chatter"));
    let p = "01".repeat(16);
    let w = "ab".repeat(16);
    let key = format!("dds/{p}/writer/{w}/rt/chatter");
    let found = entities.treat_admin_query(&format!("{PREFIX}/{key}"), PREFIX).unwrap();
    assert_eq!(found.len(), 1);
    assert_eq!(found[0].key, key);
    match entities.admin_reply(PREFIX, &found[0].key, &found[0].entity) {
        AdminReply::Reply(full, EntityValue::Writer(e)) => {
            assert_eq!(full, format!("{PREFIX}/{key}"));
            assert_eq!(e.topic_name(), "rt/chatter");
        }
        other => panic!("got {other:?}"),
    }
}

#[test]
fn wild_admin_query_finds_what_it_meets() {
    let mut entities = DiscoveredEntities::default();
    entities.add_participant(DdsParticipant { key: participant(), qos: Qos::default() });
    entities.add_writer(writer(7, "rt/chatter"));
    entities.add_reader(writer(8, "rt/rosout"));
    entities.update_participant_info(declaration(participant(), "/", "talker", &[7], &[]));
    let all = entities.treat_admin_query(&format!("{PREFIX}/**"), PREFIX).unwrap();
    assert_eq!(all.len(), 4);
    let writers = entities
        .treat_admin_query(&format!("{PREFIX}/dds/*/writer/**"), PREFIX)
        .unwrap();
    assert_eq!(writers.len(), 1);
    assert!(matches!(writers[0].entity, EntityRef::Writer(g) if g == Gid::from([7; 16])));
    let nodes = entities.treat_admin_query(&format!("{PREFIX}/node/**"), PREFIX).unwrap();
    assert_eq!(nodes.len(), 1);
    assert_eq!(nodes[0].key, format!("node/{}/talker", "01".repeat(16)));
    assert!(matches!(
        entities.admin_reply(PREFIX, &nodes[0].key, &nodes[0].entity),
        AdminReply::Reply(_, EntityValue::Node(_))
    ));
}

#[test]
fn admin_query_errors() {
    let entities = DiscoveredEntities::default();
    assert_eq!(
        entities.treat_admin_query("other/dds/x", PREFIX).unwrap_err(),
        AdminQueryError::NotPrefixed
    );
    assert_eq!(
        entities.treat_admin_query("@/0123/ros2/", PREFIX).unwrap_err(),
        AdminQueryError::InvalidKeyExpr
    );
    assert_eq!(
        entities.treat_admin_query("@/0123/ros2/dds", "a//b").unwrap_err(),
        AdminQueryError::InvalidKeyExpr
    );
    assert!(entities.treat_admin_query("@/0123/ros2/dds/x", PREFIX).unwrap().is_empty());
}

#[test]
fn admin_replies_that_cannot_be_given() {
    let mut entities = DiscoveredEntities::default();
    entities.add_participant(DdsParticipant { key: participant(), qos: Qos::default() });
    let known = EntityRef::Participant(participant());
    let gone = EntityRef::Node(participant(), "/gone".to_string());
    assert!(matches!(entities.admin_reply(PREFIX, "dds/x", &gone), AdminReply::Dangling));
    assert!(matches!(entities.admin_reply("a//b", "dds/x", &known), AdminReply::Unjoinable));
    // no key expression, though it could be made one
    assert!(matches!(entities.admin_reply("a", "foo$*$*", &known), AdminReply::Unjoinable));
    assert!(matches!(entities.admin_reply("a", "dds/**/**", &known), AdminReply::Unjoinable));
    assert!(matches!(entities.admin_reply("a", "", &known), AdminReply::Unjoinable));
    assert!(matches!(
        entities.admin_reply(PREFIX, "dds/x", &known),
        AdminReply::Reply(_, EntityValue::Participant(_))
    ));
}

#[test]
fn the_entry_of_the_orphan_node_is_dangling() {
    let mut entities = DiscoveredEntities::default();
    entities.add_writer(writer(10, "rt/some/topic"));
    entities.forward_orphan_writers();
    let nodes = entities.treat_admin_query(&format!("{PREFIX}/node/**"), PREFIX).unwrap();
    assert_eq!(nodes.len(), 1);
    assert!(matches!(
        entities.admin_reply(PREFIX, &nodes[0].key, &nodes[0].entity),
        AdminReply::Dangling
    ));
}

#[test]
fn a_topic_that_cannot_stand_in_a_key_is_refused() {
    let bad = |topic: &str| {
        DdsEntity::new(
            Gid::from([1; 16]),
            participant(),
            topic.to_string(),
            "T".to_string(),
            None,
            true,
            Qos::default(),
        )
        .is_none()
    };
    assert!(bad("rt/a#b"));
    assert!(bad("/rt/a"));
    assert!(bad("rt//a"));
    assert!(bad("rt/@a"));
    assert!(!bad(""));
    assert!(!bad("rt/a"));
}

#[test]
fn an_empty_topic_leaves_no_slash_behind() {
    let mut entities = DiscoveredEntities::default();
    entities.add_writer(writer(7, ""));
    let key = format!("dds/{}/writer/{}", "01".repeat(16), "07".repeat(16));
    assert_eq!(entities.treat_admin_query(&format!("{PREFIX}/{key}"), PREFIX).unwrap().len(), 1);
}

#[test]
fn the_description_of_nothing() {
    assert_eq!(
        DiscoveredEntities::default().describe(),
        "participants: []\nwriters: []\nreaders: []\nros_participant_info: {}\nnodes_info: {}\n\
         admin_space: []\n"
    );
}

#[test]
fn the_description_names_all_keys() {
    let mut entities = DiscoveredEntities::default();
    entities.add_participant(DdsParticipant { key: participant(), qos: Qos::default() });
    entities.add_writer(writer(7, "rt/chatter"));
    entities.add_writer(writer(8, "rt/tf"));
    let (p, a, b) = ("01".repeat(16), "07".repeat(16), "08".repeat(16));
    assert_eq!(
        entities.describe(),
        format!(
            "participants: [{p}]\nwriters: [{a}, {b}]\nreaders: []\nros_participant_info: {{}}\n\
             nodes_info: {{}}\nadmin_space: [ke`dds/{p}`, ke`dds/{p}/writer/{a}/rt/chatter`, \
             ke`dds/{p}/writer/{b}/rt/tf`]\n"
        )
    );
}

#[test]
fn the_description_shows_declarations_and_nodes() {
    let mut entities = DiscoveredEntities::default();
    entities.update_participant_info(declaration(participant(), "/ns", "a\"b", &[7, 8], &[9]));
    entities.add_writer(writer(7, "rt/chatter"));
    let (p, a, b, c) = ("01".repeat(16), "07".repeat(16), "08".repeat(16), "09".repeat(16));
    let text = entities.describe();
    let lines: Vec<&str> = text.lines().collect();
    assert_eq!(
        lines[3],
        format!(
            "ros_participant_info: {{{p}: ParticipantEntitiesInfo {{ gid: {p}, \
             node_entities_info_seq: {{\"/ns/a\\\"b\": NodeEntitiesInfo {{ \
             node_namespace: \"/ns\", node_name: \"a\\\"b\", reader_gid_seq: {{{c}}}, \
             writer_gid_seq: {{{a}, {b}}} }}}} }}}}"
        )
    );
    assert_eq!(
        lines[4],
        format!(
            "nodes_info: {{{p}: {{\"/ns/a\\\"b\": NodeInfo {{ participant: {p}, \
             namespace: \"/ns\", name: \"a\\\"b\", endpoints: [Endpoint {{ kind: MsgPub, \
             part: Message, name: \"/chatter\", dds_type: \"std_msgs::msg::dds_::String_\", \
             writer: true, gid: {a} }}], undiscovered_reader: [{c}], \
             undiscovered_writer: [{b}] }}}}}}"
        )
    );
}

#[test]
fn a_reader_with_the_identifier_of_an_orphan_ends_apart() {
    let mut entities = DiscoveredEntities::default();
    let gid = Gid::from([9; 16]);
    entities.add_writer(writer(9, "rt/topic"));
    assert_eq!(entities.forward_orphan_writers().len(), 1);
    entities.add_reader(writer(9, "rt/topic"));
    entities.remove_reader(&gid);
    assert!(entities.node(&participant(), ORPHAN_NODE_NAME).unwrap().owns_msg_writer(&gid));
}

#[test]
fn a_declaration_of_an_orphan_tells_nothing() {
    let mut entities = DiscoveredEntities::default();
    entities.add_writer(writer(9, "rt/topic"));
    assert_eq!(entities.forward_orphan_writers().len(), 1);
    let events = entities.update_participant_info(declaration(participant(), "/", "a", &[9], &[]));
    assert!(events.is_empty());
    let node = entities.node(&participant(), "/a").unwrap();
    assert!(node.endpoints().is_empty());
    assert!(node.undiscovered(true).is_empty());
    // beside it, another Writer is told as ever
    entities.add_writer(writer(8, "rt/other"));
    let events =
        entities.update_participant_info(declaration(participant(), "/", "a", &[8, 9], &[]));
    assert_eq!(events.len(), 1);
    assert_eq!(pub_node(&events[0]), "/a");
}

#[test]
fn an_orphan_stays_one_until_its_writer_ends() {
    let mut entities = DiscoveredEntities::default();
    let gid = Gid::from([9; 16]);
    entities.add_writer(writer(9, "rt/topic"));
    assert_eq!(entities.forward_orphan_writers().len(), 1);
    // whatever happens meanwhile
    entities.update_participant_info(declaration(participant(), "/", "a", &[9], &[]));
    entities.add_writer(writer(9, "rt/topic"));
    entities.add_reader(writer(10, "rt/topic"));
    entities.remove_reader(&Gid::from([10; 16]));
    entities.update_participant_info(ParticipantEntitiesInfo::new(participant()));
    entities.update_participant_info(declaration(participant(), "/", "b", &[9], &[]));
    entities.remove_participant(&Gid::from([2; 16]));
    entities.forward_orphan_writers();
    assert!(entities.node(&participant(), ORPHAN_NODE_NAME).unwrap().owns_msg_writer(&gid));
    assert!(!entities.node(&participant(), "/b").unwrap().owns_msg_writer(&gid));
    // it ends, and comes back declared: now the node gets it
    assert!(entities.remove_writer(&gid).is_some());
    entities.update_participant_info(declaration(participant(), "/", "b", &[9], &[]));
    let event = entities.add_writer(writer(9, "rt/topic")).expect("event");
    assert_eq!(pub_node(&event), "/b");
    assert!(entities.forward_orphan_writers().is_empty());
}

#[test]
fn a_sweep_spares_declared_nodes() {
    let mut entities = DiscoveredEntities::default();
    entities.add_writer(writer(7, "rt/chatter"));
    entities.update_participant_info(declaration(participant(), "/", "talker", &[7], &[]));
    entities.add_writer(writer(8, "rt/chatter"));
    assert_eq!(entities.forward_orphan_writers().len(), 1);
    let talker = entities.node(&participant(), "/talker").unwrap();
    assert_eq!(talker.endpoints().len(), 1);
    assert!(!talker.owns_msg_writer(&Gid::from([8; 16])));
}

#[test]
fn two_writers_of_one_publisher_end_with_the_second() {
    let mut entities = DiscoveredEntities::default();
    entities.update_participant_info(declaration(participant(), "/", "talker", &[7, 8], &[]));
    assert!(entities.add_writer(writer(7, "rt/chatter")).is_some());
    assert!(entities.add_writer(writer(8, "rt/chatter")).is_none());
    assert!(entities.remove_writer(&Gid::from([7; 16])).is_none());
    assert!(entities.remove_writer(&Gid::from([8; 16])).is_some());
}

#[test]
fn the_policies_are_trimmed_but_for_nodes() {
    let json = || {
        Json::Object(vec![Member {
            name: "qos".to_string(),
            value: Json::Object(vec![Member { name: "history".to_string(), value: Json::Null }]),
        }])
    };
    let trimmed = Json::Object(vec![Member {
        name: "qos".to_string(),
        value: Json::Object(vec![]),
    }]);
    let mut entities = DiscoveredEntities::default();
    entities.add_writer(writer(7, "rt/chatter"));
    entities.update_participant_info(declaration(participant(), "/", "talker", &[7], &[]));
    let w = entities.get_entity_value(&EntityRef::Writer(Gid::from([7; 16]))).unwrap();
    assert_eq!(w.json_value(Ok::<Json, String>(json())).unwrap(), trimmed);
    let n = entities
        .get_entity_value(&EntityRef::Node(participant(), "/talker".to_string()))
        .unwrap();
    assert_eq!(n.json_value(Ok::<Json, String>(json())).unwrap(), json());
    assert_eq!(n.json_value(Err::<Json, &str>("bad")).unwrap_err(), "bad");
}

#[test]
fn the_admin_space_shows_all_policies() {
    let qos = || Qos {
        topic_data: Some(vec![7]),
        ownership: Some(Ownership { kind: OwnershipKind::Exclusive }),
        ..Qos::default()
    };
    let mut entities = DiscoveredEntities::default();
    entities.add_participant(DdsParticipant { key: participant(), qos: qos() });
    let entity = DdsEntity::new(
        Gid::from([7; 16]),
        participant(),
        "rt/chatter".to_string(),
        "T".to_string(),
        None,
        true,
        qos(),
    )
    .expect("entity");
    entities.add_writer(entity);
    match entities.admin_reply(PREFIX, "dds/x", &EntityRef::Participant(participant())) {
        AdminReply::Reply(_, EntityValue::Participant(p)) => assert_eq!(p.qos, qos()),
        _ => panic!("no participant"),
    }
    match entities.admin_reply(PREFIX, "dds/x", &EntityRef::Writer(Gid::from([7; 16]))) {
        AdminReply::Reply(_, EntityValue::Writer(w)) => assert_eq!(*w.qos(), qos()),
        _ => panic!("no Writer"),
    }
}
