use ros2dds_routes::forwarding::{
    next_action, open_queue, request_stop, Enqueued, ForwardCounters, ForwarderAction, FwdCmd,
    Received,
};
use ros2dds_routes::qos::{Durability, DurabilityKind, History, HistoryKind, Qos};
use ros2dds_routes::route_publisher::{RouteConfig, ZPublisher};

#[test]
fn samples_go_into_the_queue_until_it_is_full() {
    let (mut tx, rx) = flume::bounded::<FwdCmd>(1);
    let mut c = ForwardCounters::new();
    assert_eq!(c.route_sample(&mut tx, vec![1, 2, 3]), None);
    assert_eq!(c.dropped_msg_count, 0);
    // full: dropped, and the first drop is worth a warning
    assert_eq!(c.route_sample(&mut tx, vec![4]), Some(1));
    assert_eq!(c.route_sample(&mut tx, vec![5]), None);
    assert_eq!(c.dropped_msg_count, 2);
    assert_eq!(request_stop(&mut tx), Enqueued::Full);
    match rx.try_recv() {
        Ok(FwdCmd::Msg(payload)) => assert_eq!(payload, vec![1, 2, 3]),
        other => panic!("got {other:?}"),
    }
    assert_eq!(request_stop(&mut tx), Enqueued::Sent);
    assert!(matches!(rx.try_recv(), Ok(FwdCmd::Stop)));
    drop(rx);
    assert_eq!(request_stop(&mut tx), Enqueued::Disconnected);
    // an abandoned queue is no drop
    assert_eq!(c.route_sample(&mut tx, vec![6]), None);
    assert_eq!(c.dropped_msg_count, 2);
}

#[test]
fn one_drop_in_a_hundred_is_worth_a_warning() {
    let mut c = ForwardCounters::new();
    let mut warnings = Vec::new();
    for _ in 0..250 {
        if let Some(n) = c.enqueued(Enqueued::Full) {
            warnings.push(n);
        }
    }
    assert_eq!(warnings, vec![1, 100, 200]);
    assert_eq!(c.enqueued(Enqueued::Sent), None);
    assert_eq!(c.dropped_msg_count, 250);
}

#[test]
fn the_forwarder_publishes_waits_and_ends() {
    match next_action(Received::Cmd(FwdCmd::Msg(vec![9])), true) {
        ForwarderAction::Put(payload) => assert_eq!(payload, vec![9]),
        other => panic!("got {other:?}"),
    }
    assert!(matches!(next_action(Received::Cmd(FwdCmd::Stop), false), ForwarderAction::Terminate));
    assert!(matches!(next_action(Received::Disconnected, false), ForwarderAction::Terminate));
    assert!(matches!(next_action(Received::Timeout, false), ForwarderAction::Wait));
    assert!(matches!(next_action(Received::Timeout, true), ForwarderAction::Terminate));
}

#[test]
fn only_published_messages_count() {
    let mut c = ForwardCounters::new();
    c.forwarded(10, true);
    c.forwarded(7, false);
    c.forwarded(5, true);
    assert_eq!((c.fwd_msg_count, c.fwd_byte_count), (2, 15));
}

#[test]
fn the_queue_has_the_capacity_that_the_publisher_needs() {
    let plan = |depth: i32| {
        let qos = Qos {
            durability: Some(Durability { kind: DurabilityKind::TransientLocal }),
            history: Some(History { kind: HistoryKind::KeepLast, depth }),
            ..Qos::default()
        };
        let config = RouteConfig {
            transient_local_cache_multiplier: 1,
            reliable_routes_blocking: false,
            priority_and_express: None,
        };
        ZPublisher::plan(&qos, true, &config)
    };
    let (tx, _rx) = open_queue(&plan(1));
    assert_eq!(tx.capacity(), Some(256));
    let (tx, _rx) = open_queue(&plan(1000));
    assert_eq!(tx.capacity(), Some(1000));
    let (tx, _rx) = open_queue(&plan(5000));
    assert_eq!(tx.capacity(), Some(4096));
}

#[test]
fn what_is_sent_arrives_in_order_until_the_stop() {
    let config = RouteConfig {
        transient_local_cache_multiplier: 1,
        reliable_routes_blocking: false,
        priority_and_express: None,
    };
    let (mut tx, rx) = open_queue(&ZPublisher::plan(&Qos::default(), true, &config));
    let mut c = ForwardCounters::new();
    assert_eq!(c.route_sample(&mut tx, vec![1]), None);
    assert_eq!(c.route_sample(&mut tx, vec![2, 2]), None);
    assert_eq!(c.route_sample(&mut tx, vec![3, 3, 3]), None);
    assert_eq!(request_stop(&mut tx), Enqueued::Sent);
    assert_eq!(c.route_sample(&mut tx, vec![4]), None);
    let mut published: Vec<Vec<u8>> = Vec::new();
    loop {
        let received = match rx.try_recv() {
            Ok(cmd) => Received::Cmd(cmd),
            Err(e) => panic!("got {e:?}"),
        };
        match next_action(received, false) {
            ForwarderAction::Put(payload) => {
                // the second attempt fails
                let outcome = published.len() != 1;
                c.forwarded(payload.len(), outcome);
                published.push(payload);
            }
            ForwarderAction::Wait => {}
            ForwarderAction::Terminate => break,
        }
    }
    assert_eq!(published, vec![vec![1], vec![2, 2], vec![3, 3, 3]]);
    assert_eq!((c.fwd_msg_count, c.fwd_byte_count, c.dropped_msg_count), (2, 4, 0));
}
