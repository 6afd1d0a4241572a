use ros2dds_routes::dds::TypeInfo;
use ros2dds_routes::gid::Gid;
use ros2dds_routes::qos::{
    Deadline, Durability, DurabilityKind, DurabilityService, EntityName, History, HistoryKind,
    Lifespan, Property, Qos, Reliability, ReliabilityKind,
};
use ros2dds_routes::route_publisher::{
    Activation, CongestionControl, Priority, ReaderAction, RouteConfig, RoutePublisher, ZPublisher,
    DDS_ENTITY_NULL,
};

fn config(multiplier: usize) -> RouteConfig {
    RouteConfig {
        transient_local_cache_multiplier: multiplier,
        reliable_routes_blocking: true,
        priority_and_express: None,
    }
}

fn reliability(kind: ReliabilityKind) -> Reliability {
    Reliability { kind, max_blocking_time: 100_000_000 }
}

fn transient_local(kind: HistoryKind, depth: i32, max_instances: Option<i32>) -> Qos {
    Qos {
        durability: Some(Durability { kind: DurabilityKind::TransientLocal }),
        durability_service: max_instances.map(|max_instances| DurabilityService {
            max_instances,
            ..DurabilityService::default()
        }),
        reliability: Some(reliability(ReliabilityKind::Reliable)),
        history: Some(History { kind, depth }),
        ..Qos::default()
    }
}

fn route(qos: Qos) -> RoutePublisher {
    RoutePublisher::create(
        "/chatter".to_string(),
        "std_msgs/msg/String".to_string(),
        "chatter".to_string(),
        Some(TypeInfo { handle: 77 }),
        true,
        qos,
        &config(10),
        Ok(()),
        Ok(()),
    )
    .unwrap()
}

fn activate(route: &mut RoutePublisher, reader: i32) {
    match route.activate_dds_reader(Ok((reader, Ok(Gid::from([reader as u8; 16]))))) {
        Activation::Activated(gid, None) => assert_eq!(gid, Gid::from([reader as u8; 16])),
        other => panic!("got {other:?}"),
    }
}

#[test]
fn cache_size_follows_the_policies() {
    let size = |qos: Qos, keyless: bool, m: usize| ZPublisher::plan(&qos, keyless, &config(m)).cache_size;
    assert_eq!(size(Qos::default(), true, 10), 0);
    assert_eq!(size(transient_local(HistoryKind::KeepLast, 5, None), true, 10), 50);
    assert_eq!(size(transient_local(HistoryKind::KeepLast, 5, None), false, 10), usize::MAX);
    assert_eq!(size(transient_local(HistoryKind::KeepLast, 5, Some(-1)), false, 1), usize::MAX);
    assert_eq!(size(transient_local(HistoryKind::KeepLast, 5, Some(3)), false, 10), 150);
    assert_eq!(size(transient_local(HistoryKind::KeepLast, 5, Some(0)), false, 10), 50);
    assert_eq!(
        size(transient_local(HistoryKind::KeepLast, i32::MAX, Some(2)), false, 1),
        i32::MAX as usize
    );
    assert_eq!(size(transient_local(HistoryKind::KeepLast, -1, None), true, 1), usize::MAX);
    assert_eq!(size(transient_local(HistoryKind::KeepLast, i32::MIN, None), true, 1), i32::MIN as usize);
    assert_eq!(size(transient_local(HistoryKind::KeepAll, 1, None), true, 2), usize::MAX);
    assert_eq!(size(transient_local(HistoryKind::KeepAll, 1, None), true, 0), 0);
    let default_history = Qos { durability: Some(Durability { kind: DurabilityKind::TransientLocal }), ..Qos::default() };
    assert_eq!(size(default_history, true, 10), 10);
}

#[test]
fn congestion_control_and_priority_follow_the_configuration() {
    let reliable = transient_local(HistoryKind::KeepLast, 1, None);
    let z = ZPublisher::plan(&reliable, true, &config(1));
    assert_eq!(z.congestion_control, CongestionControl::Block);
    assert_eq!((z.priority, z.express), (Priority::Data, false));
    assert!(z.cached);
    let mut c = config(1);
    c.reliable_routes_blocking = false;
    c.priority_and_express = Some((Priority::RealTime, true));
    let z = ZPublisher::plan(&reliable, true, &c);
    assert_eq!(z.congestion_control, CongestionControl::Drop);
    assert_eq!((z.priority, z.express), (Priority::RealTime, true));
    let z = ZPublisher::plan(&Qos::default(), true, &config(1));
    assert_eq!(z.congestion_control, CongestionControl::Drop);
    assert!(!z.cached);
}

#[test]
fn queues_are_deep_enough_for_the_cache_within_bounds() {
    let queue = |depth: i32| {
        ZPublisher::plan(&transient_local(HistoryKind::KeepLast, depth, None), true, &config(1)).queue_size()
    };
    assert_eq!(queue(1), 256);
    assert_eq!(queue(256), 256);
    assert_eq!(queue(257), 257);
    assert_eq!(queue(4096), 4096);
    assert_eq!(queue(100_000), 4096);
}

#[test]
fn priorities_have_numbers() {
    let all = [
        Priority::RealTime,
        Priority::InteractiveHigh,
        Priority::InteractiveLow,
        Priority::DataHigh,
        Priority::Data,
        Priority::DataLow,
        Priority::Background,
    ];
    for (i, p) in all.iter().enumerate() {
        assert_eq!(p.number() as usize, i + 1);
    }
}

#[test]
fn creation_errors() {
    let create = |publisher: Result<(), String>, listener: Result<(), String>| {
        RoutePublisher::create(
            "/a".to_string(),
            "t".to_string(),
            "a".to_string(),
            None,
            true,
            Qos::default(),
            &config(1),
            publisher,
            listener,
        )
    };
    assert_eq!(
        create(Err("no session".to_string()), Ok(())).unwrap_err(),
        "Failed create Publisher for key a: no session"
    );
    assert_eq!(
        create(Ok(()), Err("closed".to_string())).unwrap_err(),
        "Failed to listen of matching status changes: closed"
    );
    let r = create(Ok(()), Ok(())).unwrap();
    assert_eq!(r.describe(), "Route Publisher (ROS:/a -> Zenoh:a)");
    assert_eq!(r.dds_reader(), DDS_ENTITY_NULL);
    assert!(r.is_unused());
}

#[test]
fn the_reader_follows_the_matching_status() {
    let mut r = route(Qos::default());
    match r.matching_status_changed(true) {
        ReaderAction::Create(request) => {
            assert_eq!(request.topic_name, "rt/chatter");
            assert_eq!(request.dds_type, "std_msgs::msg::dds_::String_");
            assert!(request.keyless);
        }
        other => panic!("got {other:?}"),
    }
    activate(&mut r, 5);
    assert_eq!(r.dds_reader(), 5);
    assert!(matches!(r.matching_status_changed(false), ReaderAction::Delete(5)));
    assert_eq!(r.dds_reader(), DDS_ENTITY_NULL);
    assert!(matches!(r.matching_status_changed(false), ReaderAction::Nothing));
}

#[test]
fn a_failed_activation_leaves_the_route_as_it_was() {
    let mut r = route(Qos::default());
    activate(&mut r, 5);
    match r.activate_dds_reader(Ok((6, Err("retcode=-3".to_string())))) {
        Activation::Failed(e, Some(6)) => assert_eq!(e, "retcode=-3"),
        other => panic!("got {other:?}"),
    }
    match r.activate_dds_reader(Err("Bad Parameter".to_string())) {
        Activation::Failed(e, None) => assert_eq!(e, "Bad Parameter"),
        other => panic!("got {other:?}"),
    }
    assert_eq!(r.dds_reader(), 5);
}

#[test]
fn a_second_activation_replaces_the_reader() {
    let mut r = route(Qos::default());
    activate(&mut r, 5);
    match r.activate_dds_reader(Ok((6, Ok(Gid::from([6; 16]))))) {
        Activation::Activated(_, Some(5)) => {}
        other => panic!("got {other:?}"),
    }
    assert_eq!(r.dds_reader(), 6);
}

#[test]
fn the_last_remote_route_takes_the_reader_with_it() {
    let mut r = route(Qos::default());
    assert!(r.add_remote_route("z1", "chatter").is_none());
    assert!(r.add_remote_route("z2", "chatter").is_none());
    assert!(r.add_remote_route("z2", "chatter").is_none());
    assert_eq!(r.remote_routes(), &vec!["z1:chatter".to_string(), "z2:chatter".to_string()]);
    activate(&mut r, 5);
    assert_eq!(r.remove_remote_route("z1", "chatter"), None);
    assert!(r.is_serving_remote_route());
    assert_eq!(r.remove_remote_route("z2", "chatter"), Some(5));
    assert!(!r.is_serving_remote_route());
    assert_eq!(r.remove_remote_route("z2", "chatter"), None);
}

#[test]
fn a_remote_route_brings_a_dead_route_back() {
    let mut r = route(Qos::default());
    r.matching_status_changed(true);
    activate(&mut r, 5);
    assert!(r.add_remote_route("z1", "chatter").is_none());
    assert_eq!(r.prune_remote_routes_with_prefix("z1:"), (true, Some(5)));
    // the subscriber still matches: no transition will tell
    let request = r.add_remote_route("z1", "chatter").expect("re-activation");
    assert_eq!(request.topic_name, "rt/chatter");
}

#[test]
fn pruning_takes_the_routes_of_one_bridge() {
    let mut r = route(Qos::default());
    r.add_remote_route("z1", "a");
    r.add_remote_route("z1", "b");
    r.add_remote_route("z10", "a");
    activate(&mut r, 5);
    assert_eq!(r.prune_remote_routes_with_prefix("z2:"), (false, None));
    assert_eq!(r.prune_remote_routes_with_prefix("z1:"), (true, None));
    assert_eq!(r.remote_routes(), &vec!["z10:a".to_string()]);
    assert_eq!(r.prune_remote_routes_with_prefix("z1:"), (false, None));
    assert_eq!(r.prune_remote_routes_with_prefix("z10:"), (true, Some(5)));
}

#[test]
fn the_first_local_node_announces_and_the_last_one_retires() {
    let mut r = route(Qos::default());
    let a = r.add_local_node("/talker".to_string(), &Qos::default()).expect("announcement");
    assert_eq!((a.zenoh_key_expr.as_str(), a.ros2_type.as_str(), a.keyless), ("chatter", "std_msgs/msg/String", true));
    assert!(r.announce_route(Ok(()), Ok(())).is_ok());
    assert!(r.is_announced());
    assert!(r.add_local_node("/talker".to_string(), &Qos::default()).is_none());
    assert!(r.add_local_node("/other".to_string(), &Qos::default()).is_none());
    assert!(!r.remove_local_node("/talker"));
    assert!(!r.remove_local_node("/talker"));
    assert!(r.is_announced());
    assert!(r.is_serving_local_node());
    assert!(r.remove_local_node("/other"));
    assert!(!r.is_announced());
    assert!(r.is_unused());
}

#[test]
fn an_action_announces_itself() {
    let mut r = RoutePublisher::create(
        "/fib/_action/status".to_string(),
        "t".to_string(),
        "k".to_string(),
        None,
        true,
        Qos::default(),
        &config(1),
        Ok(()),
        Ok(()),
    )
    .unwrap();
    assert!(r.add_local_node("/fib".to_string(), &Qos::default()).is_none());
    assert!(!r.is_announced());
    assert_eq!(r.announce_route(Ok(()), Ok(())), Ok(()));
    assert!(!r.is_announced());
    assert_eq!(r.announce_route(Err("a".to_string()), Err("b".to_string())), Ok(()));
    assert!(!r.is_announced());
}

#[test]
fn a_failed_announcement_is_told() {
    let mut r = route(Qos::default());
    assert!(r.add_local_node("/talker".to_string(), &Qos::default()).is_some());
    assert_eq!(
        r.announce_route(Ok(()), Err("closed".to_string())).unwrap_err(),
        "Failed create LivelinessToken associated to route for Publisher /chatter: closed"
    );
    assert!(!r.is_announced());
    // without a key expression no token is declared, and the text stays as it is
    assert_eq!(
        r.announce_route(Err("bad key".to_string()), Ok(())).unwrap_err(),
        "bad key"
    );
    assert!(!r.is_announced());
    assert_eq!(r.local_nodes(), &vec!["/talker".to_string()]);
}

#[test]
fn the_request_carries_what_the_route_was_made_with() {
    let mut r = route(Qos::default());
    match r.matching_status_changed(true) {
        ReaderAction::Create(request) => {
            assert_eq!(request.topic_name, "rt/chatter");
            assert_eq!(request.dds_type, "std_msgs::msg::dds_::String_");
            assert_eq!(request.type_info, Some(TypeInfo { handle: 77 }));
            assert!(request.keyless);
        }
        other => panic!("got {other:?}"),
    }
    let again = r.add_remote_route("z1", "a").expect("request");
    assert_eq!(again.type_info, Some(TypeInfo { handle: 77 }));
}

#[test]
fn an_announced_route_serves_a_node_whatever_happens() {
    let mut r = route(Qos::default());
    r.add_local_node("/a".to_string(), &Qos::default());
    assert!(r.announce_route(Ok(()), Ok(())).is_ok());
    r.add_remote_route("z1", "k");
    r.matching_status_changed(true);
    activate(&mut r, 3);
    r.add_local_node("/b".to_string(), &Qos::default());
    assert!(!r.remove_local_node("/unknown"));
    assert!(r.is_announced() && r.is_serving_local_node());
    r.prune_remote_routes_with_prefix("z1:");
    assert!(!r.remove_local_node("/a"));
    assert!(r.is_announced() && r.is_serving_local_node());
    assert!(r.remove_local_node("/b"));
    assert!(!r.is_announced() && !r.is_serving_local_node());
    assert!(!r.remove_local_node("/b"));
    assert!(!r.is_announced());
}

// Policies of all sorts.
fn many_policies() -> Qos {
    Qos {
        user_data: Some(vec![1, 2, 3]),
        deadline: Some(Deadline { period: 5 }),
        partition: Some(vec!["p".to_string(), "q".to_string()]),
        lifespan: Some(Lifespan { duration: 6 }),
        entity_name: Some(EntityName { name: "e".to_string() }),
        properties: Some(vec![Property { name: "a".to_string(), value: "b".to_string() }]),
        data_representation: Some(vec![0, 2]),
        ..transient_local(HistoryKind::KeepLast, 5, Some(3))
    }
}

#[test]
fn all_policies_reach_the_reader() {
    let mut r = route(many_policies());
    match r.matching_status_changed(true) {
        ReaderAction::Create(request) => assert_eq!(request.qos, many_policies()),
        other => panic!("got {other:?}"),
    }
    let again = r.add_remote_route("z1", "a").expect("request");
    assert_eq!(again.qos, many_policies());
}

#[test]
fn all_policies_reach_the_announcement() {
    let mut r = route(Qos::default());
    let a = r.add_local_node("/talker".to_string(), &many_policies()).expect("announcement");
    assert_eq!(a.qos, many_policies());
    assert_ne!(a.qos, Qos::default());
}
