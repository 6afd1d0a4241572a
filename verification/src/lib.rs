//! Discovery and route bookkeeping of a bridge between ROS 2 over DDS and Zenoh.
#![allow(unused_imports)]

pub mod admin_keys;
pub mod dds;
pub mod description;
pub mod discovered_entities;
pub mod discovery_history;
pub mod discovery_laws;
pub mod discovery_model;
pub mod discovery_queries;
pub mod discovery_reports;
pub mod discovery_sweep;
pub mod discovery_told;
pub mod discovery_wf;
pub mod events;
pub mod forwarding;
pub mod gid;
pub mod gid_set;
pub mod json;
pub mod key_expr;
pub mod naming;
pub mod naming_laws;
pub mod node_info;
pub mod qos;
pub mod ros_discovery;
pub mod route_laws;
pub mod route_publisher;
pub mod service_call;
pub mod table;
pub mod test_instrumentation;
pub mod text;

use vstd::prelude::*;
