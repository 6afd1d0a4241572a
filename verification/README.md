# ros2dds_routes

Discovery and route bookkeeping of a bridge between ROS 2 over DDS and Zenoh,
verified with Verus.

- `src/discovered_entities.rs` keeps track of the discovered participants,
  Writers, Readers and nodes, and of the admin space that shows them. What each
  report changes is defined in `src/discovery_model.rs`. `src/discovery_wf.rs`
  proves that every report keeps the whole well formed, and
  `src/discovery_laws.rs` and `src/discovery_history.rs` state what holds
  whatever is reported. `src/description.rs` puts it all in words.
- `src/node_info.rs`, `src/naming.rs`, `src/events.rs` and
  `src/ros_discovery.rs` describe ROS 2 nodes and their interfaces,
  `src/dds.rs`, `src/gid.rs` and `src/qos.rs` the DDS entities behind them.
- `src/route_publisher.rs` decides how the route of a publisher is set up and
  when it needs a DDS Reader; `src/forwarding.rs` is the queue between the two.
- `src/key_expr.rs` holds the calls into Zenoh's key expressions, and
  `src/admin_keys.rs` the keys of the admin space.
- `src/json.rs`, `src/test_instrumentation.rs` and `src/service_call.rs` are
  helpers of the admin space and of the test programs.

`app/` connects the library with Zenoh sessions, DDS, tasks and the environment.
DDS itself and the configuration of the bridge are reached through the traits in
`app/dds.rs`.
