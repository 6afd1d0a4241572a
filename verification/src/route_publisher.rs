//! A route from a ROS 2 publisher to Zenoh: what it serves, how its Zenoh
//! publisher is set up, and when its DDS Reader has to be there.
//!
//! The route is there while it serves local nodes or remote routes. Its DDS
//! Reader is created when Zenoh reports a matching subscriber and deleted when
//! there is none any more, or when the last remote route is gone.
use crate::dds::TypeInfo;
use crate::gid::Gid;
use crate::naming::{
    dds_message_type, is_message_for_action, message_for_action, ros2_message_type_to_dds_type,
};
use crate::qos::{
    get_durability_service_or_default, get_history_or_default, is_reliable, is_transient_local,
    HistoryKind, Qos, QosView, DDS_LENGTH_UNLIMITED,
};
use crate::table::{
    found, lemma_removed, lemma_stored, removed, store, stored, take, unique, views, HasKey,
};
use crate::text::{join2, join3, starts_with};
use vstd::prelude::*;

verus! {

/// The handle that stands for no DDS entity.
pub const DDS_ENTITY_NULL: i32 = 0;

/// The capacity of the queue between the DDS Reader and Zenoh. It takes bursts of
/// some seconds on a topic with a high rate.
pub const FWD_QUEUE_SIZE: usize = 256;

/// The capacity that no queue exceeds.
pub const MAX_QUEUE_SIZE: usize = 4096;

/// What Zenoh does with a message while the link is congested.
#[derive(Clone, Copy, PartialEq, Eq, Structural, Debug)]
pub enum CongestionControl {
    Block,
    Drop,
}

/// The priority of a message on Zenoh.
#[derive(Clone, Copy, PartialEq, Eq, Structural, Debug)]
pub enum Priority {
    RealTime,
    InteractiveHigh,
    InteractiveLow,
    DataHigh,
    Data,
    DataLow,
    Background,
}

impl Priority {
    /// The number by which the priority is written.
    pub open spec fn spec_number(self) -> u8 {
        match self {
            Priority::RealTime => 1,
            Priority::InteractiveHigh => 2,
            Priority::InteractiveLow => 3,
            Priority::DataHigh => 4,
            Priority::Data => 5,
            Priority::DataLow => 6,
            Priority::Background => 7,
        }
    }

    /// The number by which the priority is written.
    pub fn number(&self) -> (r: u8)
        ensures
            r == self.spec_number(),
    {
        match self {
            Priority::RealTime => 1,
            Priority::InteractiveHigh => 2,
            Priority::InteractiveLow => 3,
            Priority::DataHigh => 4,
            Priority::Data => 5,
            Priority::DataLow => 6,
            Priority::Background => 7,
        }
    }
}

/// What the configuration says of a route.
#[derive(Clone, Copy, Debug)]
pub struct RouteConfig {
    /// The number of Writers that a cache of history should serve.
    pub transient_local_cache_multiplier: usize,
    /// Whether reliable routes block on congestion.
    pub reliable_routes_blocking: bool,
    /// The priority of the topic, and whether its messages are sent at once.
    pub priority_and_express: Option<(Priority, bool)>,
}

/// How a Zenoh publisher is set up.
#[derive(Clone, Copy, PartialEq, Eq, Structural, Debug)]
pub struct ZPublisher {
    /// Whether publications are cached for late subscribers.
    pub cached: bool,
    /// How many publications are cached.
    pub cache_size: usize,
    pub congestion_control: CongestionControl,
    pub priority: Priority,
    pub express: bool,
}

/// The value of a signed number as a size: a negative one wraps around.
pub open spec fn wrapped(n: int) -> int {
    if n >= 0 {
        n
    } else {
        usize::MAX + 1 + n
    }
}

/// The product of two numbers, held within the range of their type.
pub open spec fn saturated(a: i32, b: i32) -> int {
    if a * b > i32::MAX {
        i32::MAX as int
    } else if a * b < i32::MIN {
        i32::MIN as int
    } else {
        a * b
    }
}

/// How many samples a Reader with the given policies wants to see of the past.
pub open spec fn history_size(qos: QosView, keyless: bool) -> int {
    let history = qos.history_or_default();
    let max_instances = qos.durability_service_or_default().max_instances;
    match history.kind {
        HistoryKind::KeepLast => if keyless {
            wrapped(history.depth as int)
        } else if max_instances == DDS_LENGTH_UNLIMITED {
            usize::MAX as int
        } else if max_instances > 0 {
            wrapped(saturated(history.depth, max_instances))
        } else {
            wrapped(history.depth as int)
        },
        HistoryKind::KeepAll => usize::MAX as int,
    }
}

/// How many publications are cached: none unless the Reader is transient local,
/// else its history, for as many Writers as configured.
pub open spec fn cache_size(qos: QosView, keyless: bool, multiplier: usize) -> int {
    if !qos.transient_local() {
        0
    } else if history_size(qos, keyless) * multiplier > usize::MAX {
        usize::MAX as int
    } else {
        history_size(qos, keyless) * multiplier
    }
}

/// How the Zenoh publisher of a route is set up.
pub open spec fn publisher_for(qos: QosView, keyless: bool, config: RouteConfig) -> ZPublisher {
    let (priority, express) = match config.priority_and_express {
        Some(p) => p,
        None => (Priority::Data, false),
    };
    ZPublisher {
        cached: qos.transient_local(),
        cache_size: cache_size(qos, keyless, config.transient_local_cache_multiplier) as usize,
        congestion_control: if config.reliable_routes_blocking && qos.reliable() {
            CongestionControl::Block
        } else {
            CongestionControl::Drop
        },
        priority,
        express,
    }
}

/// The value of a signed number as a size.
fn as_size(n: i32) -> (r: usize)
    ensures
        r == wrapped(n as int),
{
    if n >= 0 {
        n as usize
    } else {
        let below: i32 = -(n + 1);
        usize::MAX - below as usize
    }
}

/// The product of two numbers, held within the range of their type.
fn saturating_product(a: i32, b: i32) -> (r: i32)
    ensures
        r == saturated(a, b),
{
    assert(-0x4000_0000_0000_0000 <= a * b <= 0x4000_0000_0000_0000) by (nonlinear_arith)
        requires
            -0x8000_0000 <= a <= 0x7fff_ffff,
            -0x8000_0000 <= b <= 0x7fff_ffff,
    ;
    let product: i64 = a as i64 * b as i64;
    if product > i32::MAX as i64 {
        i32::MAX
    } else if product < i32::MIN as i64 {
        i32::MIN
    } else {
        product as i32
    }
}

impl ZPublisher {
    /// How the Zenoh publisher of a route is set up: from the policies of its
    /// Reader and from the configuration.
    pub fn plan(reader_qos: &Qos, keyless: bool, config: &RouteConfig) -> (r: ZPublisher)
        ensures
            r == publisher_for(reader_qos@, keyless, *config),
            r.cache_size == cache_size(
                reader_qos@,
                keyless,
                config.transient_local_cache_multiplier,
            ),
    {
        let cached = is_transient_local(reader_qos);
        let cache_size: usize = if cached {
            let history_qos = get_history_or_default(reader_qos);
            let max_instances: i32 = get_durability_service_or_default(reader_qos).max_instances;
            let history: usize = match history_qos.kind {
                HistoryKind::KeepLast => if keyless {
                    // only 1 instance
                    as_size(history_qos.depth)
                } else if max_instances == DDS_LENGTH_UNLIMITED {
                    usize::MAX
                } else if max_instances > 0 {
                    // as if all instances were published equally often
                    as_size(saturating_product(history_qos.depth, max_instances))
                } else {
                    as_size(history_qos.depth)
                },
                HistoryKind::KeepAll => usize::MAX,
            };
            // there may be several Writers behind the route
            match history.checked_mul(config.transient_local_cache_multiplier) {
                Some(size) => size,
                None => usize::MAX,
            }
        } else {
            0
        };
        let congestion_control = if config.reliable_routes_blocking && is_reliable(reader_qos) {
            CongestionControl::Block
        } else {
            CongestionControl::Drop
        };
        let (priority, express) = match config.priority_and_express {
            Some(p) => p,
            None => (Priority::Data, false),
        };
        ZPublisher { cached, cache_size, congestion_control, priority, express }
    }

    /// The capacity of the queue in front of the publisher: deep enough for the
    /// burst of history that comes when the Reader is created, within bounds.
    pub fn queue_size(&self) -> (r: usize)
        ensures
            r == queue_size_for(self.cache_size),
    {
        let wanted: usize = if self.cache_size < MAX_QUEUE_SIZE {
            self.cache_size
        } else {
            MAX_QUEUE_SIZE
        };
        if wanted > FWD_QUEUE_SIZE {
            wanted
        } else {
            FWD_QUEUE_SIZE
        }
    }
}

/// The capacity of the queue in front of a publisher.
pub open spec fn queue_size_for(cache_size: usize) -> usize {
    if cache_size <= FWD_QUEUE_SIZE {
        FWD_QUEUE_SIZE
    } else if cache_size <= MAX_QUEUE_SIZE {
        cache_size
    } else {
        MAX_QUEUE_SIZE
    }
}

/// A queue is never smaller than the usual size nor larger than the bound, and
/// holds the whole cache where the bound allows it.
pub proof fn law_queue_size(cache_size: usize)
    ensures
        FWD_QUEUE_SIZE <= queue_size_for(cache_size) <= MAX_QUEUE_SIZE,
        cache_size <= MAX_QUEUE_SIZE ==> cache_size <= queue_size_for(cache_size),
{
}

/// A publisher for a Reader that is not transient local caches nothing, and one
/// for a keyless Reader caches its depth for each Writer.
pub proof fn law_cache_size(qos: QosView, keyless: bool, config: RouteConfig)
    ensures
        !qos.transient_local() ==> publisher_for(qos, keyless, config).cache_size == 0,
        qos.transient_local() && keyless && qos.history_or_default().kind == HistoryKind::KeepLast
            && 0 <= qos.history_or_default().depth && qos.history_or_default().depth
            * config.transient_local_cache_multiplier <= usize::MAX ==> publisher_for(
            qos,
            keyless,
            config,
        ).cache_size == qos.history_or_default().depth * config.transient_local_cache_multiplier,
        qos.transient_local() && qos.history_or_default().kind == HistoryKind::KeepAll
            && config.transient_local_cache_multiplier > 0 ==> publisher_for(
            qos,
            keyless,
            config,
        ).cache_size == usize::MAX,
{
    let depth = qos.history_or_default().depth;
    let m = config.transient_local_cache_multiplier;
    assert(0 <= depth ==> depth * m >= 0) by (nonlinear_arith)
        requires
            m >= 0,
    ;
    assert(m >= 1 ==> usize::MAX * m >= usize::MAX) by (nonlinear_arith)
        requires
            m >= 0,
    ;
}

/// The DDS Reader that a route needs.
#[derive(Debug)]
pub struct ReaderRequest {
    pub topic_name: String,
    pub dds_type: String,
    pub type_info: Option<TypeInfo>,
    pub keyless: bool,
    pub qos: Qos,
}

/// The specification value of a [`ReaderRequest`].
pub struct ReaderRequestView {
    pub topic_name: Seq<char>,
    pub dds_type: Seq<char>,
    pub type_info: Option<TypeInfo>,
    pub keyless: bool,
    pub qos: QosView,
}

impl View for ReaderRequest {
    type V = ReaderRequestView;

    open spec fn view(&self) -> ReaderRequestView {
        ReaderRequestView {
            topic_name: self.topic_name@,
            dds_type: self.dds_type@,
            type_info: self.type_info,
            keyless: self.keyless,
            qos: self.qos@,
        }
    }
}

/// What has to be done about the DDS Reader of a route.
#[derive(Debug)]
pub enum ReaderAction {
    /// Create it, and report the outcome to [`RoutePublisher::activate_dds_reader`].
    Create(ReaderRequest),
    /// Withdraw its identifier from `ros_discovery_info`, and delete it.
    Delete(i32),
    Nothing,
}

/// What has to be done once the outcome of a Reader's creation is known.
#[derive(Debug)]
pub enum Activation {
    /// Announce the identifier in `ros_discovery_info`, and delete the Reader that
    /// was replaced, if any.
    Activated(Gid, Option<i32>),
    /// Report the error, and delete the Reader that is of no use, if any.
    Failed(String, Option<i32>),
}

/// The announcement of a route to other bridges.
#[derive(Debug)]
pub struct Announcement {
    pub zenoh_key_expr: String,
    pub ros2_type: String,
    pub keyless: bool,
    /// The policies of the Writer that was discovered.
    pub qos: Qos,
}

/// A route from a ROS 2 publisher to Zenoh.
#[derive(Debug)]
pub struct RoutePublisher {
    ros2_name: String,
    ros2_type: String,
    zenoh_key_expr: String,
    zenoh_publisher: ZPublisher,
    dds_reader: i32,
    type_info: Option<TypeInfo>,
    keyless: bool,
    reader_qos: Qos,
    announced: bool,
    remote_routes: Vec<String>,
    local_nodes: Vec<String>,
    is_matching: bool,
}

/// The specification value of a [`RoutePublisher`].
pub struct RouteView {
    pub ros2_name: Seq<char>,
    pub ros2_type: Seq<char>,
    pub zenoh_key_expr: Seq<char>,
    pub zenoh_publisher: ZPublisher,
    pub dds_reader: i32,
    pub type_info: Option<TypeInfo>,
    pub keyless: bool,
    pub reader_qos: QosView,
    pub announced: bool,
    pub remote_routes: Seq<Seq<char>>,
    pub local_nodes: Seq<Seq<char>>,
    pub is_matching: bool,
}

impl View for RoutePublisher {
    type V = RouteView;

    closed spec fn view(&self) -> RouteView {
        RouteView {
            ros2_name: self.ros2_name@,
            ros2_type: self.ros2_type@,
            zenoh_key_expr: self.zenoh_key_expr@,
            zenoh_publisher: self.zenoh_publisher,
            dds_reader: self.dds_reader,
            type_info: self.type_info,
            keyless: self.keyless,
            reader_qos: self.reader_qos@,
            announced: self.announced,
            remote_routes: views(self.remote_routes@),
            local_nodes: views(self.local_nodes@),
            is_matching: self.is_matching,
        }
    }
}

impl RouteView {
    /// No remote route and no local node is listed twice. A route that is announced
    /// serves a local node, and does not belong to an action.
    pub open spec fn wf(self) -> bool {
        &&& unique(self.remote_routes)
        &&& unique(self.local_nodes)
        &&& self.announced ==> self.local_nodes.len() > 0
        &&& self.announced ==> !message_for_action(self.ros2_name)
    }

    /// The route once it is known whether a subscriber matches. Without one it has
    /// no Reader.
    pub open spec fn with_matching(self, matching: bool) -> RouteView {
        let next = RouteView { is_matching: matching, ..self };
        if matching {
            next
        } else {
            next.deactivated()
        }
    }

    /// The route that serves one more remote route.
    pub open spec fn with_remote_route(self, id: Seq<char>) -> RouteView {
        RouteView { remote_routes: stored(self.remote_routes, id), ..self }
    }

    /// The route that no longer serves a remote route.
    pub open spec fn without_remote_route(self, id: Seq<char>) -> RouteView {
        self.serving(removed(self.remote_routes, id))
    }

    /// The route that no longer serves remote routes whose name starts with
    /// `prefix`.
    pub open spec fn without_prefix(self, prefix: Seq<char>) -> RouteView {
        let left = pruned(self.remote_routes, prefix);
        if left.len() == self.remote_routes.len() {
            self
        } else {
            self.serving(left)
        }
    }

    /// The route that serves one more local node.
    pub open spec fn with_local_node(self, node: Seq<char>) -> RouteView {
        RouteView { local_nodes: stored(self.local_nodes, node), ..self }
    }

    /// Whether the end of the local node leaves none.
    pub open spec fn is_last_node(self, node: Seq<char>) -> bool {
        found(self.local_nodes, node) && removed(self.local_nodes, node).len() == 0
    }

    /// The route that no longer serves a local node. The last one ends the
    /// announcement.
    pub open spec fn without_local_node(self, node: Seq<char>) -> RouteView {
        RouteView {
            local_nodes: removed(self.local_nodes, node),
            announced: self.announced && !self.is_last_node(node),
            ..self
        }
    }

    /// The route once its announcement was made, or has failed. One that belongs to
    /// an action stays as it was.
    pub open spec fn with_announcement(self, made: bool) -> RouteView {
        if made && !message_for_action(self.ros2_name) {
            RouteView { announced: true, ..self }
        } else {
            self
        }
    }

    /// The DDS Reader that the route needs.
    pub open spec fn reader_request(self) -> ReaderRequestView {
        ReaderRequestView {
            topic_name: "rt"@ + self.ros2_name,
            dds_type: dds_message_type(self.ros2_type),
            type_info: self.type_info,
            keyless: self.keyless,
            qos: self.reader_qos,
        }
    }

    /// The Reader that a deactivation has to delete.
    pub open spec fn reader(self) -> Option<i32> {
        if self.dds_reader == DDS_ENTITY_NULL {
            None
        } else {
            Some(self.dds_reader)
        }
    }

    /// The route without a Reader.
    pub open spec fn deactivated(self) -> RouteView {
        RouteView { dds_reader: DDS_ENTITY_NULL, ..self }
    }

    /// The route that serves the given remote routes, and has no Reader if there
    /// is none.
    pub open spec fn serving(self, remote_routes: Seq<Seq<char>>) -> RouteView {
        let next = RouteView { remote_routes, ..self };
        if remote_routes.len() == 0 {
            next.deactivated()
        } else {
            next
        }
    }

    /// The Reader that has to go when the given remote routes are left.
    pub open spec fn reader_without(self, remote_routes: Seq<Seq<char>>) -> Option<i32> {
        if remote_routes.len() == 0 {
            self.reader()
        } else {
            None
        }
    }
}

/// The name of a route on another bridge.
pub open spec fn remote_id(zenoh_id: Seq<char>, zenoh_key_expr: Seq<char>) -> Seq<char> {
    zenoh_id + ":"@ + zenoh_key_expr
}

/// The remote routes whose name does not start with `prefix`, in order.
pub open spec fn pruned(remote_routes: Seq<Seq<char>>, prefix: Seq<char>) -> Seq<Seq<char>> {
    remote_routes.filter(|r: Seq<char>| !prefix.is_prefix_of(r))
}

/// A new route: it serves nothing, and has no Reader.
pub open spec fn new_route(
    ros2_name: Seq<char>,
    ros2_type: Seq<char>,
    zenoh_key_expr: Seq<char>,
    type_info: Option<TypeInfo>,
    keyless: bool,
    reader_qos: QosView,
    config: RouteConfig,
) -> RouteView {
    RouteView {
        ros2_name,
        ros2_type,
        zenoh_key_expr,
        zenoh_publisher: publisher_for(reader_qos, keyless, config),
        dds_reader: DDS_ENTITY_NULL,
        type_info,
        keyless,
        reader_qos,
        announced: false,
        remote_routes: Seq::empty(),
        local_nodes: Seq::empty(),
        is_matching: false,
    }
}

/// The specification value of a request that may be missing.
pub open spec fn request_in(r: Option<ReaderRequest>) -> Option<ReaderRequestView> {
    match r {
        Some(r) => Some(r@),
        None => None,
    }
}

fn remote_id_of(zenoh_id: &str, zenoh_key_expr: &str) -> (r: String)
    ensures
        r@ == remote_id(zenoh_id@, zenoh_key_expr@),
{
    join3(zenoh_id, ":", zenoh_key_expr)
}

impl RoutePublisher {
    /// A new route, once it is known how the declaration of its Zenoh publisher
    /// with the settings of [`ZPublisher::plan`] and that of its matching listener
    /// went.
    pub fn create(
        ros2_name: String,
        ros2_type: String,
        zenoh_key_expr: String,
        type_info: Option<TypeInfo>,
        keyless: bool,
        reader_qos: Qos,
        config: &RouteConfig,
        publisher: Result<(), String>,
        matching_listener: Result<(), String>,
    ) -> (r: Result<RoutePublisher, String>)
        ensures
            match publisher {
                Ok(_) => match matching_listener {
                    Ok(_) => r matches Ok(route) && route@.wf() && route@ == new_route(
                        ros2_name@,
                        ros2_type@,
                        zenoh_key_expr@,
                        type_info,
                        keyless,
                        reader_qos@,
                        *config,
                    ),
                    Err(e) => r matches Err(text) && text@
                        == "Failed to listen of matching status changes: "@ + e@,
                },
                Err(e) => r matches Err(text) && text@ == "Failed create Publisher for key "@
                    + zenoh_key_expr@ + ": "@ + e@,
            },
    {
        if let Err(e) = publisher {
            let text = join3("Failed create Publisher for key ", &zenoh_key_expr, ": ");
            return Err(join2(&text, &e));
        }
        if let Err(e) = matching_listener {
            return Err(join2("Failed to listen of matching status changes: ", &e));
        }
        let zenoh_publisher = ZPublisher::plan(&reader_qos, keyless, config);
        let route = RoutePublisher {
            ros2_name,
            ros2_type,
            zenoh_key_expr,
            zenoh_publisher,
            dds_reader: DDS_ENTITY_NULL,
            type_info,
            keyless,
            reader_qos,
            announced: false,
            remote_routes: Vec::new(),
            local_nodes: Vec::new(),
            is_matching: false,
        };
        proof {
            assert(route@.remote_routes =~= Seq::empty());
            assert(route@.local_nodes =~= Seq::empty());
        }
        Ok(route)
    }

    /// The route in words.
    pub fn describe(&self) -> (r: String)
        ensures
            r@ == "Route Publisher (ROS:"@ + self@.ros2_name + " -> Zenoh:"@ + self@.zenoh_key_expr
                + ")"@,
    {
        let head = join3("Route Publisher (ROS:", &self.ros2_name, " -> Zenoh:");
        join3(&head, &self.zenoh_key_expr, ")")
    }

    /// The settings of the Zenoh publisher.
    pub fn zenoh_publisher(&self) -> (r: ZPublisher)
        ensures
            r == self@.zenoh_publisher,
    {
        self.zenoh_publisher
    }

    /// The handle of the DDS Reader, or [`DDS_ENTITY_NULL`].
    pub fn dds_reader(&self) -> (r: i32)
        ensures
            r == self@.dds_reader,
    {
        self.dds_reader
    }

    /// Whether the route is announced to other bridges.
    pub fn is_announced(&self) -> (r: bool)
        ensures
            r == self@.announced,
    {
        self.announced
    }

    pub fn ros2_name(&self) -> (r: &str)
        ensures
            r@ == self@.ros2_name,
    {
        &self.ros2_name
    }

    pub fn ros2_type(&self) -> (r: &str)
        ensures
            r@ == self@.ros2_type,
    {
        &self.ros2_type
    }

    pub fn zenoh_key_expr(&self) -> (r: &str)
        ensures
            r@ == self@.zenoh_key_expr,
    {
        &self.zenoh_key_expr
    }

    /// The remote routes that are served.
    pub fn remote_routes(&self) -> (r: &Vec<String>)
        ensures
            views(r@) == self@.remote_routes,
    {
        &self.remote_routes
    }

    /// The local nodes that are served.
    pub fn local_nodes(&self) -> (r: &Vec<String>)
        ensures
            views(r@) == self@.local_nodes,
    {
        &self.local_nodes
    }

    fn reader_request(&self) -> (r: ReaderRequest)
        ensures
            r@ == self@.reader_request(),
    {
        ReaderRequest {
            topic_name: join2("rt", &self.ros2_name),
            dds_type: ros2_message_type_to_dds_type(&self.ros2_type),
            type_info: self.type_info,
            keyless: self.keyless,
            qos: self.reader_qos.clone(),
        }
    }

    /// Zenoh reports whether there is a matching subscriber: a Reader has to be
    /// created, or the present one deleted.
    pub fn matching_status_changed(&mut self, matching: bool) -> (r: ReaderAction)
        ensures
            final(self)@ == old(self)@.with_matching(matching),
            matching ==> (r matches ReaderAction::Create(request) && request@ == old(
                self,
            )@.reader_request()),
            !matching ==> (match old(self)@.reader() {
                Some(reader) => r == ReaderAction::Delete(reader),
                None => r is Nothing,
            }),
    {
        self.is_matching = matching;
        if matching {
            ReaderAction::Create(self.reader_request())
        } else {
            match self.deactivate_dds_reader() {
                Some(reader) => ReaderAction::Delete(reader),
                None => ReaderAction::Nothing,
            }
        }
    }

    /// Takes note of how the creation of the Reader went: the handle, and the
    /// identifier read back from it. Without an identifier the Reader is of no
    /// use, and the route stays as it was.
    pub fn activate_dds_reader(&mut self, created: Result<(i32, Result<Gid, String>), String>) -> (r:
        Activation)
        ensures
            match created {
                Ok((reader, Ok(gid))) => final(self)@ == (RouteView {
                    dds_reader: reader,
                    ..old(self)@
                }) && r == Activation::Activated(gid, old(self)@.reader()),
                Ok((reader, Err(e))) => final(self)@ == old(self)@ && r == Activation::Failed(
                    e,
                    Some(reader),
                ),
                Err(e) => final(self)@ == old(self)@ && r == Activation::Failed(e, None),
            },
    {
        match created {
            Ok((reader, Ok(gid))) => {
                let old_reader = self.deactivate_dds_reader();
                self.dds_reader = reader;
                Activation::Activated(gid, old_reader)
            },
            Ok((reader, Err(e))) => Activation::Failed(e, Some(reader)),
            Err(e) => Activation::Failed(e, None),
        }
    }

    /// Takes the Reader from the route, if it has one: its identifier is to be
    /// withdrawn from `ros_discovery_info`, and it is to be deleted.
    pub fn deactivate_dds_reader(&mut self) -> (r: Option<i32>)
        ensures
            final(self)@ == old(self)@.deactivated(),
            r == old(self)@.reader(),
    {
        let reader = self.dds_reader;
        self.dds_reader = DDS_ENTITY_NULL;
        if reader != DDS_ENTITY_NULL {
            Some(reader)
        } else {
            None
        }
    }

    /// A route on another bridge is served from now on. Where a subscriber matches
    /// and there is no Reader, one has to be created: no change of the matching
    /// status will tell.
    pub fn add_remote_route(&mut self, zenoh_id: &str, zenoh_key_expr: &str) -> (r: Option<
        ReaderRequest,
    >)
        requires
            old(self)@.wf(),
        ensures
            final(self)@.wf(),
            final(self)@ == old(self)@.with_remote_route(remote_id(zenoh_id@, zenoh_key_expr@)),
            request_in(r) == (if old(self)@.is_matching && old(self)@.reader() is None {
                Some(old(self)@.reader_request())
            } else {
                None
            }),
    {
        store(&mut self.remote_routes, remote_id_of(zenoh_id, zenoh_key_expr));
        if self.is_matching && self.dds_reader == DDS_ENTITY_NULL {
            Some(self.reader_request())
        } else {
            None
        }
    }

    /// A route on another bridge is no longer served. Where it was the last one
    /// the Reader has to go.
    pub fn remove_remote_route(&mut self, zenoh_id: &str, zenoh_key_expr: &str) -> (r: Option<i32>)
        requires
            old(self)@.wf(),
        ensures
            final(self)@.wf(),
            final(self)@ == old(self)@.without_remote_route(
                remote_id(zenoh_id@, zenoh_key_expr@),
            ),
            r == old(self)@.reader_without(
                removed(old(self)@.remote_routes, remote_id(zenoh_id@, zenoh_key_expr@)),
            ),
    {
        let _ = take(&mut self.remote_routes, &remote_id_of(zenoh_id, zenoh_key_expr));
        if self.remote_routes.len() == 0 {
            self.deactivate_dds_reader()
        } else {
            None
        }
    }

    /// A bridge has departed: the routes whose name starts with `prefix` are no
    /// longer served. Tells whether there were any, and the Reader that has to go
    /// where none is left.
    pub fn prune_remote_routes_with_prefix(&mut self, prefix: &str) -> (r: (bool, Option<i32>))
        requires
            old(self)@.wf(),
        ensures
            final(self)@.wf(),
            final(self)@ == old(self)@.without_prefix(prefix@),
            ({
                let left = pruned(old(self)@.remote_routes, prefix@);
                if left.len() == old(self)@.remote_routes.len() {
                    r == (false, None::<i32>)
                } else {
                    r == (true, old(self)@.reader_without(left))
                }
            }),
    {
        let ghost all = views(self.remote_routes@);
        let ghost keep = |r: Seq<char>| !prefix@.is_prefix_of(r);
        let before: usize = self.remote_routes.len();
        let mut left: Vec<String> = Vec::new();
        proof {
            reveal(Seq::filter);
            assert(views(left@) =~= all.take(0).filter(keep));
        }
        for i in 0..before
            invariant
                before == self.remote_routes@.len(),
                *self == *old(self),
                all == views(self.remote_routes@),
                keep == (|r: Seq<char>| !prefix@.is_prefix_of(r)),
                views(left@) == all.take(i as int).filter(keep),
        {
            proof {
                reveal(Seq::filter);
                assert(all[i as int] == self.remote_routes@[i as int]@);
                assert(all.take(i + 1).drop_last() =~= all.take(i as int));
                assert(all.take(i + 1).last() == all[i as int]);
            }
            if !starts_with(&self.remote_routes[i], prefix) {
                let ghost kept = left@;
                let route = self.remote_routes[i].clone();
                left.push(route);
                assert(views(left@) =~= views(kept).push(all[i as int]));
            }
        }
        proof {
            assert(all.take(before as int) =~= all);
            law_prune_keeps_the_others(all, prefix@);
        }
        if left.len() == before {
            return (false, None);
        }
        self.remote_routes = left;
        if self.remote_routes.len() == 0 {
            (true, self.deactivate_dds_reader())
        } else {
            (true, None)
        }
    }

    pub fn is_serving_remote_route(&self) -> (r: bool)
        ensures
            r == (self@.remote_routes.len() > 0),
    {
        self.remote_routes.len() > 0
    }

    /// A local node is served from now on. The first one makes the route known to
    /// other bridges, unless it belongs to an action, which announces itself.
    pub fn add_local_node(&mut self, node: String, discovered_writer_qos: &Qos) -> (r: Option<
        Announcement,
    >)
        requires
            old(self)@.wf(),
        ensures
            final(self)@.wf(),
            final(self)@ == old(self)@.with_local_node(node@),
            r is Some == (old(self)@.local_nodes.len() == 0 && !message_for_action(
                old(self)@.ros2_name,
            )),
            r matches Some(a) ==> a.zenoh_key_expr@ == old(self)@.zenoh_key_expr && a.ros2_type@
                == old(self)@.ros2_type && a.keyless == old(self)@.keyless && a.qos@
                == discovered_writer_qos@,
    {
        let first = self.local_nodes.len() == 0;
        store(&mut self.local_nodes, node);
        if first && !is_message_for_action(&self.ros2_name) {
            Some(
                Announcement {
                    zenoh_key_expr: self.zenoh_key_expr.clone(),
                    ros2_type: self.ros2_type.clone(),
                    keyless: self.keyless,
                    qos: discovered_writer_qos.clone(),
                },
            )
        } else {
            None
        }
    }

    /// Takes note of how the announcement of a route that serves a local node went:
    /// how its key expression was made, and how its liveliness token was declared.
    /// A route that belongs to an action is not announced, and stays as it was.
    pub fn announce_route(
        &mut self,
        liveliness_ke: Result<(), String>,
        token: Result<(), String>,
    ) -> (r: Result<(), String>)
        requires
            old(self)@.wf(),
            old(self)@.local_nodes.len() > 0,
        ensures
            final(self)@.wf(),
            final(self)@ == old(self)@.with_announcement(liveliness_ke is Ok && token is Ok),
            if message_for_action(old(self)@.ros2_name) {
                r is Ok
            } else {
                match liveliness_ke {
                    Ok(_) => match token {
                        Ok(_) => r is Ok,
                        Err(e) => r matches Err(text) && text@
                            == "Failed create LivelinessToken associated to route for Publisher "@
                            + old(self)@.ros2_name + ": "@ + e@,
                    },
                    Err(e) => r == Err::<(), String>(e),
                }
            },
    {
        if is_message_for_action(&self.ros2_name) {
            return Ok(());
        }
        if let Err(e) = liveliness_ke {
            return Err(e);
        }
        match token {
            Ok(_) => {
                self.announced = true;
                Ok(())
            },
            Err(e) => {
                let head = join3(
                    "Failed create LivelinessToken associated to route for Publisher ",
                    &self.ros2_name,
                    ": ",
                );
                Err(join2(&head, &e))
            },
        }
    }

    /// The route is no longer announced.
    fn retire_route(&mut self)
        ensures
            final(self)@ == (RouteView { announced: false, ..old(self)@ }),
    {
        self.announced = false;
    }

    /// A local node is no longer served. Tells whether it was the last one, which
    /// ends the announcement.
    pub fn remove_local_node(&mut self, node: &str) -> (r: bool)
        requires
            old(self)@.wf(),
        ensures
            final(self)@.wf(),
            r == old(self)@.is_last_node(node@),
            final(self)@ == old(self)@.without_local_node(node@),
    {
        match take(&mut self.local_nodes, &node.to_owned()) {
            Some(_) => {
                if self.local_nodes.len() == 0 {
                    self.retire_route();
                    true
                } else {
                    false
                }
            },
            None => false,
        }
    }

    pub fn is_serving_local_node(&self) -> (r: bool)
        ensures
            r == (self@.local_nodes.len() > 0),
    {
        self.local_nodes.len() > 0
    }

    /// Whether the route serves nothing.
    pub fn is_unused(&self) -> (r: bool)
        ensures
            r == (self@.local_nodes.len() == 0 && self@.remote_routes.len() == 0),
    {
        !self.is_serving_local_node() && !self.is_serving_remote_route()
    }
}

/// To prune takes away the routes with the prefix, keeps all others, and lists
/// none twice.
pub proof fn law_prune_keeps_the_others(remote_routes: Seq<Seq<char>>, prefix: Seq<char>)
    ensures
        forall|r: Seq<char>| #[trigger]
            found(pruned(remote_routes, prefix), r) == (found(remote_routes, r)
                && !prefix.is_prefix_of(r)),
        unique(remote_routes) ==> unique(pruned(remote_routes, prefix)),
        pruned(remote_routes, prefix).len() <= remote_routes.len(),
    decreases remote_routes.len(),
{
    reveal(Seq::filter);
    if remote_routes.len() > 0 {
        let rest = remote_routes.drop_last();
        law_prune_keeps_the_others(rest, prefix);
        let last = remote_routes.last();
        let before = pruned(rest, prefix);
        let after = pruned(remote_routes, prefix);
        assert forall|r: Seq<char>| #[trigger] found(after, r) == (found(remote_routes, r)
            && !prefix.is_prefix_of(r)) by {
            if found(after, r) {
                let i = choose|i: int| 0 <= i < after.len() && (#[trigger] after[i]).key() == r;
                if i < before.len() {
                    assert(before[i].key() == r);
                    assert(found(before, r));
                    let j = choose|j: int| 0 <= j < rest.len() && (#[trigger] rest[j]).key() == r;
                    assert(remote_routes[j].key() == r);
                } else {
                    assert(remote_routes[remote_routes.len() - 1].key() == r);
                }
            }
            if found(remote_routes, r) && !prefix.is_prefix_of(r) {
                let j = choose|j: int|
                    0 <= j < remote_routes.len() && (#[trigger] remote_routes[j]).key() == r;
                if j < rest.len() {
                    assert(rest[j].key() == r);
                    assert(found(before, r));
                    let i = choose|i: int|
                        0 <= i < before.len() && (#[trigger] before[i]).key() == r;
                    assert(after[i].key() == r);
                } else {
                    assert(after[before.len() as int].key() == r);
                }
            }
        }
        if unique(remote_routes) {
            assert forall|i: int, j: int|
                #![trigger rest[i], rest[j]]
                0 <= i < j < rest.len() implies rest[i].key() != rest[j].key() by {
                assert(remote_routes[i].key() != remote_routes[j].key());
            }
            assert forall|i: int, j: int|
                #![trigger after[i], after[j]]
                0 <= i < j < after.len() implies after[i].key() != after[j].key() by {
                assert(after[i] == before[i]);
                if j < before.len() {
                    assert(after[j] == before[j]);
                } else {
                    assert(after[j] == last);
                    if before[i] == last {
                        assert(found(before, last));
                        let k = choose|k: int|
                            0 <= k < rest.len() && (#[trigger] rest[k]).key() == last;
                        assert(remote_routes[k].key() != remote_routes[remote_routes.len()
                            - 1].key());
                    }
                }
            }
        }
    }
}

/// Once a departed bridge is pruned, none of its routes is served.
pub proof fn law_departed_bridge_is_pruned(
    remote_routes: Seq<Seq<char>>,
    zenoh_id: Seq<char>,
    zenoh_key_expr: Seq<char>,
)
    ensures
        !found(
            pruned(remote_routes, zenoh_id + ":"@),
            remote_id(zenoh_id, zenoh_key_expr),
        ),
{
    law_prune_keeps_the_others(remote_routes, zenoh_id + ":"@);
    let prefix = zenoh_id + ":"@;
    let r = remote_id(zenoh_id, zenoh_key_expr);
    assert(r.subrange(0, prefix.len() as int) =~= prefix);
    assert(prefix.is_prefix_of(r));
}

/// To prune a second time takes nothing away.
pub proof fn law_prune_is_idempotent(remote_routes: Seq<Seq<char>>, prefix: Seq<char>)
    ensures
        pruned(pruned(remote_routes, prefix), prefix) == pruned(remote_routes, prefix),
{
    law_prune_keeps_the_others(remote_routes, prefix);
    let once = pruned(remote_routes, prefix);
    assert forall|i: int| 0 <= i < once.len() implies !prefix.is_prefix_of(
        #[trigger] once[i],
    ) by {
        assert(once[i].key() == once[i]);
        assert(found(once, once[i]));
    }
    lemma_nothing_to_prune(once, prefix);
}

proof fn lemma_nothing_to_prune(remote_routes: Seq<Seq<char>>, prefix: Seq<char>)
    requires
        forall|i: int|
            0 <= i < remote_routes.len() ==> !prefix.is_prefix_of(#[trigger] remote_routes[i]),
    ensures
        pruned(remote_routes, prefix) == remote_routes,
    decreases remote_routes.len(),
{
    reveal(Seq::filter);
    if remote_routes.len() > 0 {
        let rest = remote_routes.drop_last();
        assert forall|i: int| 0 <= i < rest.len() implies !prefix.is_prefix_of(
            #[trigger] rest[i],
        ) by {
            assert(rest[i] == remote_routes[i]);
        }
        lemma_nothing_to_prune(rest, prefix);
        assert(!prefix.is_prefix_of(remote_routes[remote_routes.len() - 1]));
        assert(rest.push(remote_routes.last()) =~= remote_routes);
    } else {
        assert(pruned(remote_routes, prefix) =~= remote_routes);
    }
}

/// A route that serves no remote route any more has no Reader.
pub proof fn law_unserved_route_has_no_reader(route: RouteView, left: Seq<Seq<char>>)
    requires
        left.len() == 0,
    ensures
        route.serving(left).reader() is None,
        route.reader_without(left) == route.reader(),
{
}

/// No Reader is lost: whatever remote routes are left, the route still has its
/// Reader, or hands it out to be deleted.
pub proof fn law_no_reader_is_lost(route: RouteView, left: Seq<Seq<char>>)
    ensures
        route.serving(left).reader() == route.reader() && route.reader_without(left) is None
            || route.serving(left).reader() is None && route.reader_without(left) == route.reader(),
{
}

/// A new remote route that is removed again leaves the list as it was.
pub proof fn law_remote_route_comes_and_goes(remote_routes: Seq<Seq<char>>, id: Seq<char>)
    requires
        unique(remote_routes),
        !found(remote_routes, id),
    ensures
        removed(stored(remote_routes, id), id) == remote_routes,
{
    lemma_stored(remote_routes, id);
    let after = remote_routes.push(id);
    crate::table::lemma_place(after, remote_routes.len() as int);
    assert(after.remove(remote_routes.len() as int) =~= remote_routes);
}

/// Something that happens to a route.
pub enum RouteStep {
    /// Zenoh reports whether a subscriber matches.
    Matching(bool),
    /// A Reader was created, with this handle.
    Activated(i32),
    Deactivated,
    RemoteRouteAdded(Seq<char>),
    RemoteRouteRemoved(Seq<char>),
    Pruned(Seq<char>),
    LocalNodeAdded(Seq<char>),
    LocalNodeRemoved(Seq<char>),
    /// The announcement was made, or has failed.
    Announced(bool),
}

/// Whether the step can be taken: only a route that serves a local node is
/// announced.
pub open spec fn can_step(route: RouteView, step: RouteStep) -> bool {
    step is Announced ==> route.local_nodes.len() > 0
}

/// The route after the step.
pub open spec fn after_step(route: RouteView, step: RouteStep) -> RouteView {
    match step {
        RouteStep::Matching(matching) => route.with_matching(matching),
        RouteStep::Activated(reader) => RouteView { dds_reader: reader, ..route },
        RouteStep::Deactivated => route.deactivated(),
        RouteStep::RemoteRouteAdded(id) => route.with_remote_route(id),
        RouteStep::RemoteRouteRemoved(id) => route.without_remote_route(id),
        RouteStep::Pruned(prefix) => route.without_prefix(prefix),
        RouteStep::LocalNodeAdded(node) => route.with_local_node(node),
        RouteStep::LocalNodeRemoved(node) => route.without_local_node(node),
        RouteStep::Announced(made) => route.with_announcement(made),
    }
}

/// The route after the steps.
pub open spec fn after_steps(route: RouteView, steps: Seq<RouteStep>) -> RouteView
    decreases steps.len(),
{
    if steps.len() == 0 {
        route
    } else {
        after_step(after_steps(route, steps.drop_last()), steps.last())
    }
}

/// Every step can be taken where it stands.
pub open spec fn can_take(route: RouteView, steps: Seq<RouteStep>) -> bool {
    forall|i: int|
        0 <= i < steps.len() ==> can_step(after_steps(route, steps.take(i)), #[trigger] steps[i])
}

proof fn lemma_after_step(route: RouteView, step: RouteStep)
    requires
        route.wf(),
        can_step(route, step),
    ensures
        after_step(route, step).wf(),
{
    match step {
        RouteStep::RemoteRouteAdded(id) => {
            lemma_stored(route.remote_routes, id);
        },
        RouteStep::RemoteRouteRemoved(id) => {
            lemma_removed(route.remote_routes, id);
        },
        RouteStep::Pruned(prefix) => {
            law_prune_keeps_the_others(route.remote_routes, prefix);
        },
        RouteStep::LocalNodeAdded(node) => {
            lemma_stored(route.local_nodes, node);
        },
        RouteStep::LocalNodeRemoved(node) => {
            lemma_removed(route.local_nodes, node);
        },
        _ => {},
    }
}

/// Whatever happens to a route, and in whatever order: it lists no remote route
/// and no local node twice, and while it is announced it serves a local node.
pub proof fn law_announced_route_serves_a_node(route: RouteView, steps: Seq<RouteStep>)
    requires
        route.wf(),
        can_take(route, steps),
    ensures
        after_steps(route, steps).wf(),
        after_steps(route, steps).announced ==> after_steps(route, steps).local_nodes.len() > 0,
    decreases steps.len(),
{
    if steps.len() > 0 {
        let before = steps.drop_last();
        assert forall|i: int| 0 <= i < before.len() implies can_step(
            after_steps(route, before.take(i)),
            #[trigger] before[i],
        ) by {
            assert(before.take(i) =~= steps.take(i));
            assert(before[i] == steps[i]);
        }
        law_announced_route_serves_a_node(route, before);
        let last = steps[steps.len() - 1];
        assert(steps.take(steps.len() - 1) =~= before);
        assert(can_step(after_steps(route, before), last));
        lemma_after_step(after_steps(route, before), last);
    }
}

/// A route that has just been created is sound, and is not announced.
pub proof fn law_new_route_is_sound(
    ros2_name: Seq<char>,
    ros2_type: Seq<char>,
    zenoh_key_expr: Seq<char>,
    type_info: Option<TypeInfo>,
    keyless: bool,
    reader_qos: QosView,
    config: RouteConfig,
)
    ensures
        ({
            let route = new_route(
                ros2_name,
                ros2_type,
                zenoh_key_expr,
                type_info,
                keyless,
                reader_qos,
                config,
            );
            route.wf() && !route.announced
        }),
{
}

/// The end of a local node ends the announcement if and only if it was the last
/// one. One that is not listed changes nothing, and neither the remote routes nor
/// the Reader are touched.
pub proof fn law_last_node_ends_the_announcement(route: RouteView, node: Seq<char>)
    requires
        route.wf(),
    ensures
        ({
            let after = route.without_local_node(node);
            &&& route.announced && !after.announced <==> route.announced && route.is_last_node(node)
            &&& !found(route.local_nodes, node) ==> after == route
            &&& !found(after.local_nodes, node)
            &&& forall|n: Seq<char>|
                n != node ==> #[trigger] found(after.local_nodes, n) == found(route.local_nodes, n)
            &&& after.remote_routes == route.remote_routes
            &&& after.dds_reader == route.dds_reader
        }),
{
    lemma_removed(route.local_nodes, node);
}

/// A request for a Reader is read as it is.
pub proof fn law_request_is_read_as_it_is(request: ReaderRequest)
    ensures
        request@.topic_name == request.topic_name@,
        request@.dds_type == request.dds_type@,
        request@.type_info == request.type_info,
        request@.keyless == request.keyless,
        request@.qos == request.qos@,
{
}

} // verus!
