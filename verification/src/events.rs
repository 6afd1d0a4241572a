//! What discovery tells the routes.
use crate::naming::InterfaceKind;
use vstd::prelude::*;

verus! {

/// The name and the DDS type of a publisher, subscription, service or action.
#[derive(Debug)]
pub struct Interface {
    pub name: String,
    pub dds_type: String,
}

/// The appearance or the end of an interface, with the full name of its node.
#[derive(Debug)]
pub enum ROS2DiscoveryEvent {
    DiscoveredMsgPub(String, Interface),
    UndiscoveredMsgPub(String, Interface),
    DiscoveredMsgSub(String, Interface),
    UndiscoveredMsgSub(String, Interface),
    DiscoveredServiceSrv(String, Interface),
    UndiscoveredServiceSrv(String, Interface),
    DiscoveredServiceCli(String, Interface),
    UndiscoveredServiceCli(String, Interface),
    DiscoveredActionSrv(String, Interface),
    UndiscoveredActionSrv(String, Interface),
    DiscoveredActionCli(String, Interface),
    UndiscoveredActionCli(String, Interface),
}

/// The specification value of a [`ROS2DiscoveryEvent`].
pub struct EventView {
    pub discovered: bool,
    pub kind: InterfaceKind,
    pub node: Seq<char>,
    pub name: Seq<char>,
    pub dds_type: Seq<char>,
}

pub open spec fn event_view(
    discovered: bool,
    kind: InterfaceKind,
    node: String,
    interface: Interface,
) -> EventView {
    EventView {
        discovered,
        kind,
        node: node@,
        name: interface.name@,
        dds_type: interface.dds_type@,
    }
}

impl View for ROS2DiscoveryEvent {
    type V = EventView;

    open spec fn view(&self) -> EventView {
        match *self {
            ROS2DiscoveryEvent::DiscoveredMsgPub(n, i) => event_view(
                true,
                InterfaceKind::MsgPub,
                n,
                i,
            ),
            ROS2DiscoveryEvent::UndiscoveredMsgPub(n, i) => event_view(
                false,
                InterfaceKind::MsgPub,
                n,
                i,
            ),
            ROS2DiscoveryEvent::DiscoveredMsgSub(n, i) => event_view(
                true,
                InterfaceKind::MsgSub,
                n,
                i,
            ),
            ROS2DiscoveryEvent::UndiscoveredMsgSub(n, i) => event_view(
                false,
                InterfaceKind::MsgSub,
                n,
                i,
            ),
            ROS2DiscoveryEvent::DiscoveredServiceSrv(n, i) => event_view(
                true,
                InterfaceKind::ServiceSrv,
                n,
                i,
            ),
            ROS2DiscoveryEvent::UndiscoveredServiceSrv(n, i) => event_view(
                false,
                InterfaceKind::ServiceSrv,
                n,
                i,
            ),
            ROS2DiscoveryEvent::DiscoveredServiceCli(n, i) => event_view(
                true,
                InterfaceKind::ServiceCli,
                n,
                i,
            ),
            ROS2DiscoveryEvent::UndiscoveredServiceCli(n, i) => event_view(
                false,
                InterfaceKind::ServiceCli,
                n,
                i,
            ),
            ROS2DiscoveryEvent::DiscoveredActionSrv(n, i) => event_view(
                true,
                InterfaceKind::ActionSrv,
                n,
                i,
            ),
            ROS2DiscoveryEvent::UndiscoveredActionSrv(n, i) => event_view(
                false,
                InterfaceKind::ActionSrv,
                n,
                i,
            ),
            ROS2DiscoveryEvent::DiscoveredActionCli(n, i) => event_view(
                true,
                InterfaceKind::ActionCli,
                n,
                i,
            ),
            ROS2DiscoveryEvent::UndiscoveredActionCli(n, i) => event_view(
                false,
                InterfaceKind::ActionCli,
                n,
                i,
            ),
        }
    }
}

/// The specification value of an event that may be missing.
pub open spec fn event_in(e: Option<ROS2DiscoveryEvent>) -> Option<EventView> {
    match e {
        Some(e) => Some(e@),
        None => None,
    }
}

/// The event that `kind` appears on, or disappears from, the node `node`.
pub fn event_of(
    discovered: bool,
    kind: InterfaceKind,
    node: String,
    name: String,
    dds_type: String,
) -> (r: ROS2DiscoveryEvent)
    ensures
        r@ == (EventView { discovered, kind, node: node@, name: name@, dds_type: dds_type@ }),
{
    let i = Interface { name, dds_type };
    match (discovered, kind) {
        (true, InterfaceKind::MsgPub) => ROS2DiscoveryEvent::DiscoveredMsgPub(node, i),
        (false, InterfaceKind::MsgPub) => ROS2DiscoveryEvent::UndiscoveredMsgPub(node, i),
        (true, InterfaceKind::MsgSub) => ROS2DiscoveryEvent::DiscoveredMsgSub(node, i),
        (false, InterfaceKind::MsgSub) => ROS2DiscoveryEvent::UndiscoveredMsgSub(node, i),
        (true, InterfaceKind::ServiceSrv) => ROS2DiscoveryEvent::DiscoveredServiceSrv(node, i),
        (false, InterfaceKind::ServiceSrv) => ROS2DiscoveryEvent::UndiscoveredServiceSrv(node, i),
        (true, InterfaceKind::ServiceCli) => ROS2DiscoveryEvent::DiscoveredServiceCli(node, i),
        (false, InterfaceKind::ServiceCli) => ROS2DiscoveryEvent::UndiscoveredServiceCli(node, i),
        (true, InterfaceKind::ActionSrv) => ROS2DiscoveryEvent::DiscoveredActionSrv(node, i),
        (false, InterfaceKind::ActionSrv) => ROS2DiscoveryEvent::UndiscoveredActionSrv(node, i),
        (true, InterfaceKind::ActionCli) => ROS2DiscoveryEvent::DiscoveredActionCli(node, i),
        (false, InterfaceKind::ActionCli) => ROS2DiscoveryEvent::UndiscoveredActionCli(node, i),
    }
}

/// An event is read as what it says: whether something appears or ends, of which
/// kind, on which node, under which name and with which type.
pub proof fn law_event_is_read_as_it_is(n: String, i: Interface)
    ensures
        is_read_as(ROS2DiscoveryEvent::DiscoveredMsgPub(n, i)@, true, InterfaceKind::MsgPub, n, i),
        is_read_as(ROS2DiscoveryEvent::UndiscoveredMsgPub(n, i)@, false, InterfaceKind::MsgPub, n, i),
        is_read_as(ROS2DiscoveryEvent::DiscoveredMsgSub(n, i)@, true, InterfaceKind::MsgSub, n, i),
        is_read_as(ROS2DiscoveryEvent::UndiscoveredMsgSub(n, i)@, false, InterfaceKind::MsgSub, n, i),
        is_read_as(ROS2DiscoveryEvent::DiscoveredServiceSrv(n, i)@, true, InterfaceKind::ServiceSrv, n, i),
        is_read_as(ROS2DiscoveryEvent::UndiscoveredServiceSrv(n, i)@, false, InterfaceKind::ServiceSrv, n, i),
        is_read_as(ROS2DiscoveryEvent::DiscoveredServiceCli(n, i)@, true, InterfaceKind::ServiceCli, n, i),
        is_read_as(ROS2DiscoveryEvent::UndiscoveredServiceCli(n, i)@, false, InterfaceKind::ServiceCli, n, i),
        is_read_as(ROS2DiscoveryEvent::DiscoveredActionSrv(n, i)@, true, InterfaceKind::ActionSrv, n, i),
        is_read_as(ROS2DiscoveryEvent::UndiscoveredActionSrv(n, i)@, false, InterfaceKind::ActionSrv, n, i),
        is_read_as(ROS2DiscoveryEvent::DiscoveredActionCli(n, i)@, true, InterfaceKind::ActionCli, n, i),
        is_read_as(ROS2DiscoveryEvent::UndiscoveredActionCli(n, i)@, false, InterfaceKind::ActionCli, n, i),
{
}

/// Whether the event says so.
pub open spec fn is_read_as(
    event: EventView,
    discovered: bool,
    kind: InterfaceKind,
    n: String,
    i: Interface,
) -> bool {
    &&& event.discovered == discovered
    &&& event.kind == kind
    &&& event.node == n@
    &&& event.name == i.name@
    &&& event.dds_type == i.dds_type@
}

} // verus!
