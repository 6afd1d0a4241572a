//! What holds of routes whatever their policies and their configuration are.
use crate::dds::TypeInfo;
use crate::qos::{
    Durability, DurabilityKind, DurabilityService, History, HistoryKind, Qos, QosView, Reliability,
    ReliabilityKind,
};
use crate::route_publisher::{
    cache_size, new_route, publisher_for, pruned, queue_size_for, remote_id, CongestionControl,
    Priority, RouteConfig, RouteView, law_prune_keeps_the_others,
};
use crate::table::{found, lemma_removed, lemma_stored, removed, stored, unique};
use vstd::prelude::*;

verus! {

// ---------------------------------------------------------------------------
// The Zenoh publisher
// ---------------------------------------------------------------------------

/// A route blocks on congestion if and only if this is configured and its Writers
/// announce to be reliable. With best effort, or nothing announced, it drops.
pub proof fn law_only_reliable_routes_block(qos: QosView, keyless: bool, config: RouteConfig)
    ensures
        publisher_for(qos, keyless, config).congestion_control == CongestionControl::Block
            <==> config.reliable_routes_blocking && (qos.reliability matches Some(r) && r.kind
            == ReliabilityKind::Reliable),
        qos.reliability is None ==> publisher_for(qos, keyless, config).congestion_control
            == CongestionControl::Drop,
        qos.reliability matches Some(r) && r.kind == ReliabilityKind::BestEffort ==> publisher_for(
            qos,
            keyless,
            config,
        ).congestion_control == CongestionControl::Drop,
        !config.reliable_routes_blocking ==> publisher_for(qos, keyless, config).congestion_control
            == CongestionControl::Drop,
{
}

/// Priority and express are those that are configured, else the usual ones,
/// whatever the policies are.
pub proof fn law_priority_is_configured(qos: QosView, keyless: bool, config: RouteConfig)
    ensures
        config.priority_and_express matches Some(p) ==> publisher_for(
            qos,
            keyless,
            config,
        ).priority == p.0 && publisher_for(qos, keyless, config).express == p.1,
        config.priority_and_express is None ==> publisher_for(qos, keyless, config).priority
            == Priority::Data && !publisher_for(qos, keyless, config).express,
{
}

/// Publications are cached for transient local Readers, and for no others.
pub proof fn law_only_transient_local_is_cached(
    qos: QosView,
    keyless: bool,
    config: RouteConfig,
)
    ensures
        publisher_for(qos, keyless, config).cached <==> (qos.durability matches Some(d) && d.kind
            == DurabilityKind::TransientLocal),
        !publisher_for(qos, keyless, config).cached ==> publisher_for(
            qos,
            keyless,
            config,
        ).cache_size == 0,
{
}

/// The smaller of two numbers.
pub open spec fn at_most(n: int, bound: int) -> int {
    if n <= bound {
        n
    } else {
        bound
    }
}

/// The depth that is announced, or one.
pub open spec fn depth_of(qos: QosView) -> int {
    match qos.history {
        Some(h) => h.depth as int,
        None => 1,
    }
}

/// Whether all samples are to be kept.
pub open spec fn keeps_all(qos: QosView) -> bool {
    qos.history matches Some(h) && h.kind == HistoryKind::KeepAll
}

/// Whether the number of instances is not limited.
pub open spec fn instances_unlimited(qos: QosView) -> bool {
    qos.durability_service matches Some(s) ==> s.max_instances == -1
}

/// The cache of a transient local route holds, for each of the configured number of
/// Writers, the announced depth; where the topic has keys, that depth for each of
/// the announced number of instances. It is as large as it can be where all
/// samples are kept, or where the instances of a topic with keys are not limited.
pub proof fn law_cache_holds_the_history(qos: QosView, keyless: bool, config: RouteConfig)
    requires
        qos.durability matches Some(d) && d.kind == DurabilityKind::TransientLocal,
        depth_of(qos) >= 0,
    ensures
        ({
            let size = publisher_for(qos, keyless, config).cache_size as int;
            let m = config.transient_local_cache_multiplier as int;
            let max = usize::MAX as int;
            let depth = depth_of(qos);
            &&& keeps_all(qos) && m > 0 ==> size == max
            &&& !keeps_all(qos) && keyless ==> size == at_most(depth * m, max)
            &&& !keeps_all(qos) && !keyless && instances_unlimited(qos) && m > 0 ==> size == max
            &&& !keeps_all(qos) && !keyless && (qos.durability_service matches Some(s)
                && s.max_instances > 0) ==> size == at_most(
                at_most(depth * qos.durability_service->0.max_instances, i32::MAX as int) * m,
                max,
            )
            &&& !keeps_all(qos) && !keyless && (qos.durability_service matches Some(s)
                && s.max_instances <= 0 && s.max_instances != -1) ==> size == at_most(
                depth * m,
                max,
            )
            &&& m == 0 ==> size == 0
        }),
{
    let m = config.transient_local_cache_multiplier as int;
    let depth = depth_of(qos);
    assert(depth * m >= 0) by (nonlinear_arith)
        requires
            m >= 0,
            depth >= 0,
    ;
    assert(m >= 1 ==> usize::MAX * m >= usize::MAX) by (nonlinear_arith)
        requires
            m >= 0,
    ;
    assert(m == 0 ==> usize::MAX * m == 0) by (nonlinear_arith);
    if let Some(s) = qos.durability_service {
        let k = s.max_instances as int;
        if k > 0 {
            assert(depth * k >= 0) by (nonlinear_arith)
                requires
                    k >= 0,
                    depth >= 0,
            ;
            let h = at_most(depth * k, i32::MAX as int);
            assert(h * m >= 0) by (nonlinear_arith)
                requires
                    m >= 0,
                    h >= 0,
            ;
            assert(m == 0 ==> h * m == 0) by (nonlinear_arith);
        }
    }
    assert(m == 0 ==> depth * m == 0) by (nonlinear_arith);
}

/// A negative depth is read as the large number that it is without a sign.
pub proof fn law_negative_depth_is_large(qos: QosView, config: RouteConfig)
    requires
        qos.durability matches Some(d) && d.kind == DurabilityKind::TransientLocal,
        depth_of(qos) < 0,
        !keeps_all(qos),
    ensures
        publisher_for(qos, true, config).cache_size == at_most(
            (usize::MAX + 1 + depth_of(qos)) * config.transient_local_cache_multiplier,
            usize::MAX as int,
        ),
{
    let h = usize::MAX + 1 + depth_of(qos);
    let m = config.transient_local_cache_multiplier as int;
    assert(0 <= h);
    assert(h * m >= 0) by (nonlinear_arith)
        requires
            m >= 0,
            h >= 0,
    ;
}

/// More Writers never make the cache smaller.
pub proof fn law_cache_grows_with_the_writers(
    qos: QosView,
    keyless: bool,
    fewer: RouteConfig,
    more: RouteConfig,
)
    requires
        fewer.transient_local_cache_multiplier <= more.transient_local_cache_multiplier,
    ensures
        publisher_for(qos, keyless, fewer).cache_size <= publisher_for(
            qos,
            keyless,
            more,
        ).cache_size,
{
    let h = crate::route_publisher::history_size(qos, keyless);
    let a = fewer.transient_local_cache_multiplier as int;
    let b = more.transient_local_cache_multiplier as int;
    assert(0 <= h <= usize::MAX);
    assert(0 <= h * a <= h * b) by (nonlinear_arith)
        requires
            0 <= a <= b,
            0 <= h,
    ;
}

/// The queue in front of a publisher holds the whole cache, but no less than 256
/// and no more than 4096 messages.
pub proof fn law_queue_holds_the_cache(size: usize)
    ensures
        size <= 256 ==> queue_size_for(size) == 256,
        256 <= size <= 4096 ==> queue_size_for(size) == size,
        size >= 4096 ==> queue_size_for(size) == 4096,
{
}

// ---------------------------------------------------------------------------
// The route
// ---------------------------------------------------------------------------

/// What never changes of a route.
pub open spec fn same_route(a: RouteView, b: RouteView) -> bool {
    &&& a.ros2_name == b.ros2_name
    &&& a.ros2_type == b.ros2_type
    &&& a.zenoh_key_expr == b.zenoh_key_expr
    &&& a.zenoh_publisher == b.zenoh_publisher
    &&& a.type_info == b.type_info
    &&& a.keyless == b.keyless
    &&& a.reader_qos == b.reader_qos
}

/// A new route is as it was asked for, serves nothing and has no Reader.
pub proof fn law_new_route_serves_nothing(
    ros2_name: Seq<char>,
    ros2_type: Seq<char>,
    zenoh_key_expr: Seq<char>,
    type_info: Option<TypeInfo>,
    keyless: bool,
    reader_qos: QosView,
    config: RouteConfig,
)
    ensures
        ({
            let route = new_route(
                ros2_name,
                ros2_type,
                zenoh_key_expr,
                type_info,
                keyless,
                reader_qos,
                config,
            );
            &&& route.ros2_name == ros2_name
            &&& route.ros2_type == ros2_type
            &&& route.zenoh_key_expr == zenoh_key_expr
            &&& route.type_info == type_info
            &&& route.keyless == keyless
            &&& route.reader_qos == reader_qos
            &&& route.zenoh_publisher == publisher_for(reader_qos, keyless, config)
            &&& route.dds_reader == 0
            &&& !route.announced
            &&& !route.is_matching
            &&& route.remote_routes.len() == 0
            &&& route.local_nodes.len() == 0
        }),
{
}

/// The Reader that a route asks for is on the topic of its name, below `rt`, with
/// what the route was made with, whatever the route serves.
pub proof fn law_reader_is_for_the_route(a: RouteView, b: RouteView)
    ensures
        a.reader_request().topic_name == seq!['r', 't'] + a.ros2_name,
        a.reader_request().type_info == a.type_info,
        a.reader_request().keyless == a.keyless,
        a.reader_request().qos == a.reader_qos,
        a.reader_request().dds_type == crate::naming::dds_message_type(a.ros2_type),
        same_route(a, b) ==> a.reader_request() == b.reader_request(),
{
    reveal_strlit("rt");
    assert("rt"@ =~= seq!['r', 't']);
}

/// A route has a Reader where its handle is not zero.
pub proof fn law_reader_is_told_by_its_handle(route: RouteView)
    ensures
        route.dds_reader == 0 ==> route.reader() is None,
        route.dds_reader != 0 ==> route.reader() == Some(route.dds_reader),
        route.deactivated().dds_reader == 0,
        same_route(route, route.deactivated()),
        route.deactivated().remote_routes == route.remote_routes,
        route.deactivated().local_nodes == route.local_nodes,
        route.deactivated().announced == route.announced,
        route.deactivated().is_matching == route.is_matching,
{
}

/// The matching status decides over the Reader: without a subscriber there is none.
/// With one, it is left to the creation of a Reader to set it.
pub proof fn law_matching_decides_over_the_reader(route: RouteView, matching: bool)
    ensures
        ({
            let after = route.with_matching(matching);
            &&& after.is_matching == matching
            &&& !matching ==> after.dds_reader == 0
            &&& matching ==> after.dds_reader == route.dds_reader
            &&& same_route(route, after)
            &&& after.remote_routes == route.remote_routes
            &&& after.local_nodes == route.local_nodes
            &&& after.announced == route.announced
        }),
{
}

/// A remote route that is added is served, beside the others.
pub proof fn law_added_remote_route_is_served(route: RouteView, id: Seq<char>)
    requires
        route.wf(),
    ensures
        ({
            let after = route.with_remote_route(id);
            &&& forall|r: Seq<char>| #[trigger]
                found(after.remote_routes, r) == (found(route.remote_routes, r) || r == id)
            &&& unique(after.remote_routes)
            &&& same_route(route, after)
            &&& after.dds_reader == route.dds_reader
            &&& after.is_matching == route.is_matching
            &&& after.local_nodes == route.local_nodes
            &&& after.announced == route.announced
        }),
{
    lemma_stored(route.remote_routes, id);
}

/// A remote route that is removed is served no more, the others are. The Reader
/// stays while one of them is left, and no longer.
pub proof fn law_removed_remote_route_is_not_served(route: RouteView, id: Seq<char>)
    requires
        route.wf(),
    ensures
        ({
            let after = route.without_remote_route(id);
            &&& forall|r: Seq<char>| #[trigger]
                found(after.remote_routes, r) == (found(route.remote_routes, r) && r != id)
            &&& unique(after.remote_routes)
            &&& after.dds_reader == (if after.remote_routes.len() == 0 {
                0
            } else {
                route.dds_reader
            })
            &&& same_route(route, after)
            &&& after.is_matching == route.is_matching
            &&& after.local_nodes == route.local_nodes
            &&& after.announced == route.announced
        }),
{
    lemma_removed(route.remote_routes, id);
}

/// The routes of a departed bridge are served no more, the others are. Where it had
/// none, nothing changes. Where it had the last ones, the Reader goes.
pub proof fn law_pruned_routes_are_not_served(route: RouteView, prefix: Seq<char>)
    requires
        route.wf(),
    ensures
        ({
            let after = route.without_prefix(prefix);
            &&& forall|r: Seq<char>| #[trigger]
                found(after.remote_routes, r) == (found(route.remote_routes, r)
                    && !prefix.is_prefix_of(r))
            &&& unique(after.remote_routes)
            &&& (forall|r: Seq<char>| #[trigger]
                found(route.remote_routes, r) ==> !prefix.is_prefix_of(r)) ==> after == route
            &&& after.remote_routes.len() > 0 ==> after.dds_reader == route.dds_reader
            &&& after.remote_routes.len() == 0 && route.remote_routes.len() > 0
                ==> after.dds_reader == 0
            &&& same_route(route, after)
            &&& after.is_matching == route.is_matching
            &&& after.local_nodes == route.local_nodes
            &&& after.announced == route.announced
        }),
{
    let all = route.remote_routes;
    let left = pruned(all, prefix);
    law_prune_keeps_the_others(all, prefix);
    lemma_pruned_len(all, prefix);
    if left.len() == all.len() {
        assert(left == all);
    }
    if forall|r: Seq<char>| #[trigger] found(all, r) ==> !prefix.is_prefix_of(r) {
        assert forall|i: int| 0 <= i < all.len() implies !prefix.is_prefix_of(
            #[trigger] all[i],
        ) by {
            assert(found(all, all[i])) by {
                assert(crate::table::HasKey::key(&all[i]) == all[i]);
            }
        }
    }
}

/// Pruning that takes nothing leaves all as it was.
proof fn lemma_pruned_len(all: Seq<Seq<char>>, prefix: Seq<char>)
    ensures
        pruned(all, prefix).len() <= all.len(),
        pruned(all, prefix).len() == all.len() ==> pruned(all, prefix) == all,
        (forall|i: int| 0 <= i < all.len() ==> !prefix.is_prefix_of(#[trigger] all[i]))
            ==> pruned(all, prefix) == all,
    decreases all.len(),
{
    reveal(Seq::filter);
    if all.len() > 0 {
        let rest = all.drop_last();
        lemma_pruned_len(rest, prefix);
        assert(rest.push(all.last()) =~= all);
        if forall|i: int| 0 <= i < all.len() ==> !prefix.is_prefix_of(#[trigger] all[i]) {
            assert forall|i: int| 0 <= i < rest.len() implies !prefix.is_prefix_of(
                #[trigger] rest[i],
            ) by {
                assert(rest[i] == all[i]);
            }
            assert(!prefix.is_prefix_of(all[all.len() - 1]));
        }
    } else {
        assert(pruned(all, prefix) =~= all);
    }
}

/// A local node that is added is served, beside the others.
pub proof fn law_added_local_node_is_served(route: RouteView, node: Seq<char>)
    requires
        route.wf(),
    ensures
        ({
            let after = route.with_local_node(node);
            &&& forall|n: Seq<char>| #[trigger]
                found(after.local_nodes, n) == (found(route.local_nodes, n) || n == node)
            &&& unique(after.local_nodes)
            &&& after.local_nodes.len() > 0
            &&& same_route(route, after)
            &&& after.dds_reader == route.dds_reader
            &&& after.is_matching == route.is_matching
            &&& after.remote_routes == route.remote_routes
            &&& after.announced == route.announced
        }),
{
    lemma_stored(route.local_nodes, node);
    assert(found(route.with_local_node(node).local_nodes, node));
}

/// A local node that is removed is served no more, the others are. The announcement
/// stays while one of them is left, and no longer.
pub proof fn law_removed_local_node_is_not_served(route: RouteView, node: Seq<char>)
    requires
        route.wf(),
    ensures
        ({
            let after = route.without_local_node(node);
            &&& forall|n: Seq<char>| #[trigger]
                found(after.local_nodes, n) == (found(route.local_nodes, n) && n != node)
            &&& unique(after.local_nodes)
            &&& after.announced == (route.announced && after.local_nodes.len() > 0)
            &&& route.is_last_node(node) == (found(route.local_nodes, node)
                && after.local_nodes.len() == 0)
            &&& same_route(route, after)
            &&& after.dds_reader == route.dds_reader
            &&& after.is_matching == route.is_matching
            &&& after.remote_routes == route.remote_routes
        }),
{
    lemma_removed(route.local_nodes, node);
    if route.announced && !found(route.local_nodes, node) {
        assert(route.local_nodes.len() > 0);
    }
}

/// A route is announced once this was made, unless it is the status or the feedback
/// of an action. Nothing else changes.
pub proof fn law_announcement_is_made(route: RouteView, made: bool)
    ensures
        ({
            let after = route.with_announcement(made);
            &&& after == (RouteView { announced: after.announced, ..route })
            &&& !made ==> after.announced == route.announced
            &&& "/_action/status"@.is_suffix_of(route.ros2_name)
                || "/_action/feedback"@.is_suffix_of(route.ros2_name) ==> after.announced
                == route.announced
            &&& made && !"/_action/status"@.is_suffix_of(route.ros2_name)
                && !"/_action/feedback"@.is_suffix_of(route.ros2_name) ==> after.announced
        }),
{
}

/// The Reader that is to go when the given remote routes are left is the one that
/// the route has, where none is left, and none otherwise.
pub proof fn law_reader_goes_with_the_last_route(route: RouteView, left: Seq<Seq<char>>)
    ensures
        left.len() > 0 ==> route.reader_without(left) is None && route.serving(left).dds_reader
            == route.dds_reader,
        left.len() == 0 ==> route.serving(left).dds_reader == 0,
        left.len() == 0 && route.dds_reader != 0 ==> route.reader_without(left) == Some(
            route.dds_reader,
        ),
        left.len() == 0 && route.dds_reader == 0 ==> route.reader_without(left) is None,
        route.serving(left).remote_routes == left,
{
}

/// A remote route is named by its bridge and its key expression.
pub proof fn law_remote_route_is_named(zenoh_id: Seq<char>, zenoh_key_expr: Seq<char>)
    ensures
        remote_id(zenoh_id, zenoh_key_expr) == zenoh_id + seq![':'] + zenoh_key_expr,
        (zenoh_id + seq![':']).is_prefix_of(remote_id(zenoh_id, zenoh_key_expr)),
{
    reveal_strlit(":");
    assert(":"@ =~= seq![':']);
    let all = zenoh_id + seq![':'] + zenoh_key_expr;
    assert(all.subrange(0, zenoh_id.len() as int + 1) =~= zenoh_id + seq![':']);
}

} // verus!
