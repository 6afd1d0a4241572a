//! What is told is told in full: whatever appears or ends is told, once, and
//! nothing else is.
use crate::dds::EntityView;
use crate::discovery_model::{
    attached, declaring, declaring_all, leaving, node_at, node_declared, nodes_gone, orphan_owned,
    slot_wf, slots_wf, staying, stays, with_node, with_participant, can_declare, Declaring,
    EntitiesView, ParticipantNodesView, SlotView, ORPHAN_NODE_NAME,
};
use crate::discovery_wf::{
    declaring_wf, lemma_declaring, lemma_found, lemma_full_name_is_no_orphan, lemma_retired,
    lemma_with_participant,
};
use crate::events::EventView;
use crate::gid::Gid;
use crate::naming::{role_of, InterfaceKind, Part, RoleView};
use crate::node_info::{
    all_ends, complete, endpoint_of, ends, event_about, interface_before, needed, new_node,
    part_there, registered, serves, updated, EndpointView, NodeView,
};
use crate::ros_discovery::{NodeDeclView, ParticipantDeclView};
use crate::table::{
    found, lemma_place, lemma_update_same_key, lookup, place, unique, HasKey,
};
use vstd::prelude::*;

verus! {

// ---------------------------------------------------------------------------
// Events
// ---------------------------------------------------------------------------

/// Whether an endpoint of the interface has the DDS type.
pub open spec fn typed(
    endpoints: Seq<EndpointView>,
    kind: InterfaceKind,
    name: Seq<char>,
    dds_type: Seq<char>,
) -> bool {
    exists|i: int|
        0 <= i < endpoints.len() && (#[trigger] endpoints[i]).kind == kind && endpoints[i].name
            == name && endpoints[i].dds_type == dds_type
}

/// Whether the event says that the interface appears on the node, or that it ends.
pub open spec fn is_news(
    event: EventView,
    discovered: bool,
    node: NodeView,
    kind: InterfaceKind,
    name: Seq<char>,
) -> bool {
    &&& event.discovered == discovered
    &&& event.kind == kind
    &&& event.name == name
    &&& event.node == node.fullname()
    &&& typed(node.endpoints, kind, name, event.dds_type)
}

/// Whether one of the events says so.
pub open spec fn tells(
    events: Seq<EventView>,
    discovered: bool,
    node: NodeView,
    kind: InterfaceKind,
    name: Seq<char>,
) -> bool {
    exists|k: int|
        0 <= k < events.len() && is_news(#[trigger] events[k], discovered, node, kind, name)
}

/// Whether the two events say the same of the same interface.
pub open spec fn same_subject(a: EventView, b: EventView) -> bool {
    a.discovered == b.discovered && a.kind == b.kind && a.node == b.node && a.name == b.name
}

/// Nothing is told twice.
pub open spec fn told_once(events: Seq<EventView>) -> bool {
    forall|k: int, l: int|
        0 <= k < l < events.len() ==> !same_subject(#[trigger] events[k], #[trigger] events[l])
}

/// An event that may be missing, as a sequence.
pub open spec fn one_event(event: Option<EventView>) -> Seq<EventView> {
    match event {
        Some(event) => seq![event],
        None => Seq::empty(),
    }
}

proof fn lemma_tells_more(
    events: Seq<EventView>,
    more: Seq<EventView>,
    discovered: bool,
    node: NodeView,
    kind: InterfaceKind,
    name: Seq<char>,
)
    ensures
        tells(events, discovered, node, kind, name) ==> tells(
            events + more,
            discovered,
            node,
            kind,
            name,
        ),
        tells(more, discovered, node, kind, name) ==> tells(
            events + more,
            discovered,
            node,
            kind,
            name,
        ),
{
    let all = events + more;
    if tells(events, discovered, node, kind, name) {
        let k = choose|k: int|
            0 <= k < events.len() && is_news(#[trigger] events[k], discovered, node, kind, name);
        assert(all[k] == events[k]);
    }
    if tells(more, discovered, node, kind, name) {
        let k = choose|k: int|
            0 <= k < more.len() && is_news(#[trigger] more[k], discovered, node, kind, name);
        assert(all[events.len() + k] == more[k]);
    }
}

// ---------------------------------------------------------------------------
// A node that grows
// ---------------------------------------------------------------------------

/// The same node, with more endpoints behind those that it had.
pub open spec fn grown(before: NodeView, after: NodeView) -> bool {
    &&& after.participant == before.participant
    &&& after.namespace == before.namespace
    &&& after.name == before.name
    &&& before.endpoints.is_prefix_of(after.endpoints)
}

/// The events tell, once each, the interfaces that became complete when the node
/// grew, and nothing else.
pub open spec fn tells_growth(before: NodeView, after: NodeView, events: Seq<EventView>) -> bool {
    &&& grown(before, after)
    &&& forall|kind: InterfaceKind, name: Seq<char>| #[trigger]
        complete(after.endpoints, kind, name) && !complete(before.endpoints, kind, name) ==> tells(
            events,
            true,
            after,
            kind,
            name,
        )
    &&& forall|k: int|
        0 <= k < events.len() ==> appeared(before.endpoints, after, #[trigger] events[k])
    &&& told_once(events)
}

/// The event tells of an interface that is complete now, and was not before.
pub open spec fn appeared(
    before: Seq<EndpointView>,
    after: NodeView,
    event: EventView,
) -> bool {
    &&& is_news(event, true, after, event.kind, event.name)
    &&& complete(after.endpoints, event.kind, event.name)
    &&& !complete(before, event.kind, event.name)
}

proof fn lemma_typed_grows(
    before: Seq<EndpointView>,
    after: Seq<EndpointView>,
    kind: InterfaceKind,
    name: Seq<char>,
    dds_type: Seq<char>,
)
    requires
        before.is_prefix_of(after),
        typed(before, kind, name, dds_type),
    ensures
        typed(after, kind, name, dds_type),
{
    let i = choose|i: int|
        0 <= i < before.len() && (#[trigger] before[i]).kind == kind && before[i].name == name
            && before[i].dds_type == dds_type;
    assert(after[i] == before[i]);
}

pub(crate) proof fn lemma_complete_grows(
    before: Seq<EndpointView>,
    after: Seq<EndpointView>,
    kind: InterfaceKind,
    name: Seq<char>,
)
    requires
        before.is_prefix_of(after),
        complete(before, kind, name),
    ensures
        complete(after, kind, name),
{
    assert forall|part: Part| needed(kind, part) implies #[trigger]
        part_there(after, kind, name, part) by {
        assert(part_there(before, kind, name, part));
        let i = choose|i: int|
            0 <= i < before.len() && serves(#[trigger] before[i], kind, name, part);
        assert(after[i] == before[i]);
    }
}

/// An interface that is complete has an endpoint.
proof fn lemma_complete_has_endpoint(
    endpoints: Seq<EndpointView>,
    kind: InterfaceKind,
    name: Seq<char>,
) -> (i: int)
    requires
        complete(endpoints, kind, name),
    ensures
        0 <= i < endpoints.len(),
        endpoints[i].kind == kind,
        endpoints[i].name == name,
{
    let part = match kind {
        InterfaceKind::MsgPub | InterfaceKind::MsgSub => Part::Message,
        InterfaceKind::ServiceSrv | InterfaceKind::ServiceCli => Part::Request,
        InterfaceKind::ActionSrv | InterfaceKind::ActionCli => Part::Status,
    };
    assert(needed(kind, part));
    assert(part_there(endpoints, kind, name, part));
    choose|i: int| 0 <= i < endpoints.len() && serves(#[trigger] endpoints[i], kind, name, part)
}

proof fn lemma_growth_chain(
    a: NodeView,
    b: NodeView,
    c: NodeView,
    first: Seq<EventView>,
    second: Seq<EventView>,
)
    requires
        tells_growth(a, b, first),
        tells_growth(b, c, second),
    ensures
        tells_growth(a, c, first + second),
{
    let all = first + second;
    assert(a.endpoints.is_prefix_of(c.endpoints)) by {
        assert(a.endpoints =~= c.endpoints.subrange(0, a.endpoints.len() as int)) by {
            assert forall|i: int| 0 <= i < a.endpoints.len() implies a.endpoints[i]
                == c.endpoints[i] by {
                assert(a.endpoints[i] == b.endpoints[i]);
                assert(b.endpoints[i] == c.endpoints[i]);
            }
        }
    }
    assert forall|kind: InterfaceKind, name: Seq<char>| #[trigger]
        complete(c.endpoints, kind, name) && !complete(a.endpoints, kind, name) implies tells(
        all,
        true,
        c,
        kind,
        name,
    ) by {
        if complete(b.endpoints, kind, name) {
            assert(tells(first, true, b, kind, name));
            let k = choose|k: int|
                0 <= k < first.len() && is_news(#[trigger] first[k], true, b, kind, name);
            lemma_typed_grows(b.endpoints, c.endpoints, kind, name, first[k].dds_type);
            assert(is_news(first[k], true, c, kind, name));
        }
        lemma_tells_more(first, second, true, c, kind, name);
    }
    assert forall|k: int| 0 <= k < all.len() implies appeared(
        a.endpoints,
        c,
        #[trigger] all[k],
    ) by {
        let event = all[k];
        if k < first.len() {
            assert(all[k] == first[k]);
            assert(appeared(a.endpoints, b, first[k]));
            lemma_typed_grows(
                b.endpoints,
                c.endpoints,
                event.kind,
                event.name,
                event.dds_type,
            );
            lemma_complete_grows(b.endpoints, c.endpoints, event.kind, event.name);
        } else {
            assert(all[k] == second[k - first.len()]);
            assert(appeared(b.endpoints, c, second[k - first.len()]));
            if complete(a.endpoints, event.kind, event.name) {
                lemma_complete_grows(a.endpoints, b.endpoints, event.kind, event.name);
            }
        }
    }
    assert forall|k: int, l: int| 0 <= k < l < all.len() implies !same_subject(
        #[trigger] all[k],
        #[trigger] all[l],
    ) by {
        if l < first.len() {
            assert(all[k] == first[k] && all[l] == first[l]);
        } else if k >= first.len() {
            assert(all[k] == second[k - first.len()] && all[l] == second[l - first.len()]);
        } else {
            assert(all[k] == first[k] && all[l] == second[l - first.len()]);
            assert(appeared(a.endpoints, b, first[k]));
            assert(appeared(b.endpoints, c, second[l - first.len()]));
        }
    }
}

proof fn lemma_no_growth(node: NodeView, after: NodeView)
    requires
        after.participant == node.participant,
        after.namespace == node.namespace,
        after.name == node.name,
        after.endpoints == node.endpoints,
    ensures
        tells_growth(node, after, Seq::empty()),
{
}

/// A Writer (or a Reader) that a node gets is registered in its role, and the
/// interface that it makes complete is told; nothing else is.
pub proof fn law_endpoint_is_told(node: NodeView, e: EntityView, writer: bool)
    ensures
        ({
            let (after, event) = updated(node, e, writer);
            &&& tells_growth(node, after, one_event(event))
            &&& after.undiscovered_readers == node.undiscovered_readers
            &&& after.undiscovered_writers == node.undiscovered_writers
            &&& match role_of(e.topic_name, writer) {
                Some(role) => registered(after.endpoints, role, e.key) && forall|i: int|
                    node.endpoints.len() <= i < after.endpoints.len() ==> (
                    #[trigger] after.endpoints[i]) == (EndpointView {
                        kind: role.kind,
                        part: role.part,
                        name: role.name,
                        dds_type: e.dds_type,
                        writer,
                        gid: e.key,
                    }),
                None => after == node,
            }
        }),
{
    let (after, event) = updated(node, e, writer);
    match role_of(e.topic_name, writer) {
        Some(role) => {
            if registered(node.endpoints, role, e.key) {
                lemma_no_growth(node, after);
            } else {
                let ep = endpoint_of(e, role, writer);
                let n = node.endpoints.len() as int;
                assert(after.endpoints[n] == ep);
                assert(serves(after.endpoints[n], role.kind, role.name, role.part));
                assert forall|kind: InterfaceKind, name: Seq<char>| #[trigger]
                    complete(after.endpoints, kind, name) && !complete(
                        node.endpoints,
                        kind,
                        name,
                    ) implies tells(one_event(event), true, after, kind, name) by {
                    if kind == role.kind && name == role.name {
                        let ev = event_about(node, ep, true);
                        assert(event == Some(ev));
                        assert(typed(after.endpoints, kind, name, ev.dds_type));
                        assert(one_event(event)[0] == ev);
                        assert(is_news(one_event(event)[0], true, after, kind, name));
                    } else {
                        assert forall|part: Part| needed(kind, part) implies #[trigger]
                            part_there(node.endpoints, kind, name, part) by {
                            assert(part_there(after.endpoints, kind, name, part));
                            let i = choose|i: int|
                                0 <= i < after.endpoints.len() && serves(
                                    #[trigger] after.endpoints[i],
                                    kind,
                                    name,
                                    part,
                                );
                            assert(i != n);
                            assert(node.endpoints[i] == after.endpoints[i]);
                        }
                    }
                }
                if let Some(ev) = event {
                    assert(typed(after.endpoints, role.kind, role.name, ev.dds_type));
                }
            }
        },
        None => {
            lemma_no_growth(node, after);
        },
    }
}

// ---------------------------------------------------------------------------
// What a node declares
// ---------------------------------------------------------------------------

/// The Writer (or Reader) that the node declares is there in its role if DDS has
/// reported it, else it is waited for.
pub open spec fn holds_endpoint(
    node: NodeView,
    gid: Gid,
    entities: Seq<EntityView>,
    writer: bool,
) -> bool {
    match lookup(entities, gid) {
        Some(e) => role_of(e.topic_name, writer) matches Some(role) ==> registered(
            node.endpoints,
            role,
            gid,
        ),
        None => node.undiscovered(writer).contains(gid),
    }
}

/// The node waits for all that it waited for.
pub open spec fn waits_on(before: NodeView, after: NodeView) -> bool {
    &&& before.undiscovered_readers.is_prefix_of(after.undiscovered_readers)
    &&& before.undiscovered_writers.is_prefix_of(after.undiscovered_writers)
}

/// The endpoint is a declared Writer (or Reader) in its role.
pub open spec fn is_declared_endpoint(
    ep: EndpointView,
    gids: Seq<Gid>,
    entities: Seq<EntityView>,
    writer: bool,
) -> bool {
    &&& gids.contains(ep.gid)
    &&& ep.writer == writer
    &&& lookup(entities, ep.gid) matches Some(e) && e.dds_type == ep.dds_type && role_of(
        e.topic_name,
        writer,
    ) == Some(RoleView { kind: ep.kind, part: ep.part, name: ep.name })
}

proof fn lemma_registered_grows(
    before: Seq<EndpointView>,
    after: Seq<EndpointView>,
    role: RoleView,
    gid: Gid,
)
    requires
        before.is_prefix_of(after),
        registered(before, role, gid),
    ensures
        registered(after, role, gid),
{
    let i = choose|i: int|
        0 <= i < before.len() && serves(#[trigger] before[i], role.kind, role.name, role.part)
            && before[i].gid == gid;
    assert(after[i] == before[i]);
}

proof fn lemma_holds_grows(
    before: NodeView,
    after: NodeView,
    gid: Gid,
    entities: Seq<EntityView>,
    writer: bool,
)
    requires
        grown(before, after),
        waits_on(before, after),
        holds_endpoint(before, gid, entities, writer),
    ensures
        holds_endpoint(after, gid, entities, writer),
{
    match lookup(entities, gid) {
        Some(e) => {
            if let Some(role) = role_of(e.topic_name, writer) {
                lemma_registered_grows(before.endpoints, after.endpoints, role, gid);
            }
        },
        None => {
            let i = choose|i: int|
                0 <= i < before.undiscovered(writer).len() && before.undiscovered(writer)[i] == gid;
            assert(after.undiscovered(writer)[i] == gid);
        },
    }
}

proof fn lemma_attached_tells(
    node: NodeView,
    gids: Seq<Gid>,
    entities: Seq<EntityView>,
    writer: bool,
    skip: Set<Gid>,
    n: nat,
)
    requires
        n <= gids.len(),
    ensures
        ({
            let (after, events) = attached(node, gids, entities, writer, skip, n);
            &&& tells_growth(node, after, events)
            &&& waits_on(node, after)
            &&& forall|j: int|
                0 <= j < n && !skip.contains(#[trigger] gids[j]) ==> holds_endpoint(
                    after,
                    gids[j],
                    entities,
                    writer,
                )
            &&& forall|i: int|
                node.endpoints.len() <= i < after.endpoints.len() ==> is_declared_endpoint(
                    #[trigger] after.endpoints[i],
                    gids,
                    entities,
                    writer,
                ) && !skip.contains(after.endpoints[i].gid)
            &&& after.undiscovered(!writer) == node.undiscovered(!writer)
            &&& forall|i: int|
                node.undiscovered(writer).len() <= i < after.undiscovered(writer).len()
                    ==> gids.contains(#[trigger] after.undiscovered(writer)[i]) && !found(
                    entities,
                    after.undiscovered(writer)[i],
                ) && !skip.contains(after.undiscovered(writer)[i])
        }),
    decreases n,
{
    if n == 0 {
        lemma_no_growth(node, node);
    } else {
        lemma_attached_tells(node, gids, entities, writer, skip, (n - 1) as nat);
        let (nd, events) = attached(node, gids, entities, writer, skip, (n - 1) as nat);
        let (after, more) = attached(node, gids, entities, writer, skip, n);
        let gid = gids[n - 1];
        if !skip.contains(gid) {
            match lookup(entities, gid) {
                Some(e) => {
                    lemma_found(entities, gid);
                    assert(e.key == gid);
                    law_endpoint_is_told(nd, e, writer);
                    let (next, event) = updated(nd, e, writer);
                    lemma_growth_chain(node, nd, next, events, one_event(event));
                    assert(events + one_event(event) =~= more);
                    assert forall|i: int|
                        node.endpoints.len() <= i < after.endpoints.len() implies
                        is_declared_endpoint(
                        #[trigger] after.endpoints[i],
                        gids,
                        entities,
                        writer,
                    ) && !skip.contains(after.endpoints[i].gid) by {
                        if i < nd.endpoints.len() {
                            assert(after.endpoints[i] == nd.endpoints[i]);
                        } else {
                            assert(gids.contains(gid));
                        }
                    }
                    assert(holds_endpoint(after, gid, entities, writer));
                },
                None => {
                    lemma_no_growth(nd, after);
                    lemma_growth_chain(node, nd, after, events, Seq::empty());
                    assert(events + Seq::<EventView>::empty() =~= more);
                    let w = nd.undiscovered(writer);
                    assert(after.undiscovered(writer) == w.push(gid));
                    assert(after.undiscovered(writer)[w.len() as int] == gid);
                    assert(holds_endpoint(after, gid, entities, writer));
                    assert(gids.contains(gid));
                    assert forall|i: int|
                        node.undiscovered(writer).len() <= i < after.undiscovered(
                            writer,
                        ).len() implies gids.contains(#[trigger] after.undiscovered(writer)[i])
                        && !found(entities, after.undiscovered(writer)[i]) && !skip.contains(
                        after.undiscovered(writer)[i],
                    ) by {
                        if i < w.len() {
                            assert(after.undiscovered(writer)[i] == w[i]);
                        }
                    }
                },
            }
            assert(grown(nd, after) && waits_on(nd, after));
            assert(waits_on(node, after));
            assert forall|j: int| 0 <= j < n && !skip.contains(#[trigger] gids[j]) implies
                holds_endpoint(after, gids[j], entities, writer) by {
                if j < n - 1 {
                    lemma_holds_grows(nd, after, gids[j], entities, writer);
                }
            }
        }
    }
}

/// The node has all that it declares, but for the Writers to skip.
pub open spec fn holds_declared(
    node: NodeView,
    decl: NodeDeclView,
    readers: Seq<EntityView>,
    writers: Seq<EntityView>,
    skip: Set<Gid>,
) -> bool {
    &&& forall|j: int|
        0 <= j < decl.readers.len() ==> holds_endpoint(
            node,
            #[trigger] decl.readers[j],
            readers,
            false,
        )
    &&& forall|j: int|
        0 <= j < decl.writers.len() && !skip.contains(#[trigger] decl.writers[j])
            ==> holds_endpoint(node, decl.writers[j], writers, true)
}

/// The endpoint is one that the node declares.
pub open spec fn is_declared(
    ep: EndpointView,
    decl: NodeDeclView,
    readers: Seq<EntityView>,
    writers: Seq<EntityView>,
    skip: Set<Gid>,
) -> bool {
    ||| is_declared_endpoint(ep, decl.readers, readers, false)
    ||| is_declared_endpoint(ep, decl.writers, writers, true) && !skip.contains(ep.gid)
}

proof fn lemma_node_declared_tells(
    node: NodeView,
    decl: NodeDeclView,
    readers: Seq<EntityView>,
    writers: Seq<EntityView>,
    skip: Set<Gid>,
)
    ensures
        ({
            let (after, events) = node_declared(node, decl, readers, writers, skip);
            &&& tells_growth(node, after, events)
            &&& waits_on(node, after)
            &&& holds_declared(after, decl, readers, writers, skip)
            &&& forall|i: int|
                node.endpoints.len() <= i < after.endpoints.len() ==> is_declared(
                    #[trigger] after.endpoints[i],
                    decl,
                    readers,
                    writers,
                    skip,
                )
            &&& forall|i: int|
                node.undiscovered_readers.len() <= i < after.undiscovered_readers.len()
                    ==> decl.readers.contains(#[trigger] after.undiscovered_readers[i]) && !found(
                    readers,
                    after.undiscovered_readers[i],
                )
            &&& forall|i: int|
                node.undiscovered_writers.len() <= i < after.undiscovered_writers.len()
                    ==> decl.writers.contains(#[trigger] after.undiscovered_writers[i]) && !found(
                    writers,
                    after.undiscovered_writers[i],
                ) && !skip.contains(after.undiscovered_writers[i])
        }),
{
    let none = Set::<Gid>::empty();
    lemma_attached_tells(node, decl.readers, readers, false, none, decl.readers.len());
    let (first, reader_events) = attached(
        node,
        decl.readers,
        readers,
        false,
        none,
        decl.readers.len(),
    );
    lemma_attached_tells(first, decl.writers, writers, true, skip, decl.writers.len());
    let (second, writer_events) = attached(
        first,
        decl.writers,
        writers,
        true,
        skip,
        decl.writers.len(),
    );
    lemma_growth_chain(node, first, second, reader_events, writer_events);
    assert(second.undiscovered(false) == first.undiscovered(false));
    assert(first.undiscovered(true) == node.undiscovered(true));
    assert forall|j: int| 0 <= j < decl.readers.len() implies holds_endpoint(
        second,
        #[trigger] decl.readers[j],
        readers,
        false,
    ) by {
        assert(!none.contains(decl.readers[j]));
        lemma_holds_grows(first, second, decl.readers[j], readers, false);
    }
    assert forall|i: int| node.endpoints.len() <= i < second.endpoints.len() implies is_declared(
        #[trigger] second.endpoints[i],
        decl,
        readers,
        writers,
        skip,
    ) by {
        if i < first.endpoints.len() {
            assert(second.endpoints[i] == first.endpoints[i]);
        }
    }
    assert forall|i: int|
        node.undiscovered_readers.len() <= i < second.undiscovered_readers.len() implies
        decl.readers.contains(#[trigger] second.undiscovered_readers[i]) && !found(
        readers,
        second.undiscovered_readers[i],
    ) by {
        assert(first.undiscovered(false)[i] == second.undiscovered_readers[i]);
    }
    assert forall|i: int|
        node.undiscovered_writers.len() <= i < second.undiscovered_writers.len() implies
        decl.writers.contains(#[trigger] second.undiscovered_writers[i]) && !found(
        writers,
        second.undiscovered_writers[i],
    ) && !skip.contains(second.undiscovered_writers[i]) by {
        assert(second.undiscovered(true)[i] == second.undiscovered_writers[i]);
    }
}

// ---------------------------------------------------------------------------
// What a participant declares
// ---------------------------------------------------------------------------

/// The endpoints that the node at `i` had.
spec fn had(slots: Seq<SlotView>, i: int) -> Seq<EndpointView> {
    if i < slots.len() {
        slots[i].node.endpoints
    } else {
        Seq::empty()
    }
}

/// Whether one of the first `n` declarations of the node declares the endpoint.
spec fn declares(
    decls: Seq<NodeDeclView>,
    n: nat,
    node: Seq<char>,
    ep: EndpointView,
    readers: Seq<EntityView>,
    writers: Seq<EntityView>,
    skip: Set<Gid>,
) -> bool {
    exists|d: int|
        0 <= d < n && (#[trigger] decls[d]).key() == node && is_declared(
            ep,
            decls[d],
            readers,
            writers,
            skip,
        )
}

/// Whether one of the first `n` declarations has the name.
pub open spec fn named_before(decls: Seq<NodeDeclView>, n: nat, node: Seq<char>) -> bool {
    exists|d: int| 0 <= d < n && (#[trigger] decls[d]).key() == node
}

/// The Writers (or Readers) that the node at `i` waited for.
spec fn awaited_at(slots: Seq<SlotView>, i: int, writer: bool) -> Seq<Gid> {
    if i < slots.len() {
        slots[i].node.undiscovered(writer)
    } else {
        Seq::empty()
    }
}

/// Whether one of the first `n` declarations of the node declares the Writer (or the
/// Reader).
pub open spec fn names_entity(
    decls: Seq<NodeDeclView>,
    n: nat,
    node: Seq<char>,
    gid: Gid,
    writer: bool,
) -> bool {
    exists|d: int|
        0 <= d < n && (#[trigger] decls[d]).key() == node && (if writer {
            decls[d].writers.contains(gid)
        } else {
            decls[d].readers.contains(gid)
        })
}

/// Whether the node has reason to wait for the Writer (or the Reader): it declares
/// it, DDS has not reported it, and no orphan node owns it.
spec fn is_awaited(
    decls: Seq<NodeDeclView>,
    n: nat,
    node: Seq<char>,
    gid: Gid,
    writer: bool,
    readers: Seq<EntityView>,
    writers: Seq<EntityView>,
    skip: Set<Gid>,
) -> bool {
    names_entity(decls, n, node, gid, writer) && !found(
        if writer {
            writers
        } else {
            readers
        },
        gid,
    ) && (writer ==> !skip.contains(gid))
}

/// What holds of the nodes of a participant once the first `n` declarations were
/// looked at, and of what was told.
spec fn so_far(
    before: Seq<SlotView>,
    slots: Seq<SlotView>,
    decls: Seq<NodeDeclView>,
    n: nat,
    readers: Seq<EntityView>,
    writers: Seq<EntityView>,
    skip: Set<Gid>,
    news: Seq<EventView>,
) -> bool {
    &&& before.len() <= slots.len()
    &&& forall|i: int|
        0 <= i < before.len() ==> (#[trigger] slots[i]).name == before[i].name && grown(
            before[i].node,
            slots[i].node,
        ) && waits_on(before[i].node, slots[i].node)
    &&& forall|i: int|
        before.len() <= i < slots.len() ==> named_before(decls, n, (#[trigger] slots[i]).name)
    &&& forall|i: int, kind: InterfaceKind, name: Seq<char>|
        0 <= i < slots.len() && #[trigger] complete(slots[i].node.endpoints, kind, name)
            && !complete(had(before, i), kind, name) ==> tells(
            news,
            true,
            slots[i].node,
            kind,
            name,
        )
    &&& forall|k: int| 0 <= k < news.len() ==> from_node(before, slots, #[trigger] news[k])
    &&& told_once(news)
    &&& forall|i: int, j: int|
        #![trigger slots[i].node.endpoints[j]]
        0 <= i < slots.len() && had(before, i).len() <= j < slots[i].node.endpoints.len()
            ==> declares(
            decls,
            n,
            slots[i].name,
            slots[i].node.endpoints[j],
            readers,
            writers,
            skip,
        )
    &&& forall|i: int, j: int, writer: bool|
        #![trigger slots[i].node.undiscovered(writer)[j]]
        0 <= i < slots.len() && awaited_at(before, i, writer).len() <= j
            < slots[i].node.undiscovered(writer).len() ==> is_awaited(
            decls,
            n,
            slots[i].name,
            slots[i].node.undiscovered(writer)[j],
            writer,
            readers,
            writers,
            skip,
        )
}

/// The event tells what appeared on one of the nodes, which is not the orphan
/// node.
spec fn from_node(before: Seq<SlotView>, slots: Seq<SlotView>, event: EventView) -> bool {
    exists|i: int|
        0 <= i < slots.len() && (#[trigger] slots[i]).name != ORPHAN_NODE_NAME@ && appeared(
            had(before, i),
            slots[i].node,
            event,
        )
}

proof fn lemma_declares_more(
    decls: Seq<NodeDeclView>,
    n: nat,
    node: Seq<char>,
    ep: EndpointView,
    readers: Seq<EntityView>,
    writers: Seq<EntityView>,
    skip: Set<Gid>,
)
    requires
        declares(decls, n, node, ep, readers, writers, skip),
    ensures
        declares(decls, n + 1, node, ep, readers, writers, skip),
{
    let d = choose|d: int|
        0 <= d < n && (#[trigger] decls[d]).key() == node && is_declared(
            ep,
            decls[d],
            readers,
            writers,
            skip,
        );
    assert(decls[d].key() == node);
}

proof fn lemma_awaited_more(
    decls: Seq<NodeDeclView>,
    n: nat,
    node: Seq<char>,
    gid: Gid,
    writer: bool,
    readers: Seq<EntityView>,
    writers: Seq<EntityView>,
    skip: Set<Gid>,
)
    requires
        is_awaited(decls, n, node, gid, writer, readers, writers, skip),
    ensures
        is_awaited(decls, n + 1, node, gid, writer, readers, writers, skip),
{
    let d = choose|d: int|
        0 <= d < n && (#[trigger] decls[d]).key() == node && (if writer {
            decls[d].writers.contains(gid)
        } else {
            decls[d].readers.contains(gid)
        });
    assert(decls[d].key() == node);
}

/// A node that was just added has nothing.
proof fn lemma_nothing_complete(endpoints: Seq<EndpointView>, kind: InterfaceKind, name: Seq<char>)
    requires
        endpoints.len() == 0,
    ensures
        !complete(endpoints, kind, name),
{
    if complete(endpoints, kind, name) {
        let i = lemma_complete_has_endpoint(endpoints, kind, name);
    }
}

proof fn lemma_so_far_with_node(
    participant: Gid,
    before: Seq<SlotView>,
    st: Declaring,
    decls: Seq<NodeDeclView>,
    n: nat,
    readers: Seq<EntityView>,
    writers: Seq<EntityView>,
    skip: Set<Gid>,
    news: Seq<EventView>,
)
    requires
        n < decls.len(),
        so_far(before, st.slots, decls, n, readers, writers, skip, news),
    ensures
        so_far(
            before,
            with_node(st.slots, st.admin, participant, decls[n as int]).0,
            decls,
            n + 1,
            readers,
            writers,
            skip,
            news,
        ),
{
    let decl = decls[n as int];
    let slots = with_node(st.slots, st.admin, participant, decl).0;
    let m = st.slots.len() as int;
    assert forall|i: int| 0 <= i < m implies #[trigger] slots[i] == st.slots[i] by {}
    if !found(st.slots, decl.key()) {
        assert(slots[m].node.endpoints.len() == 0);
    }
    assert forall|i: int| before.len() <= i < slots.len() implies named_before(
        decls,
        n + 1,
        (#[trigger] slots[i]).name,
    ) by {
        if i < m {
            assert(named_before(decls, n, st.slots[i].name));
            let d = choose|d: int| 0 <= d < n && (#[trigger] decls[d]).key() == st.slots[i].name;
            assert(decls[d].key() == slots[i].name);
        } else {
            assert(decls[n as int].key() == slots[i].name);
        }
    }
    assert forall|i: int, kind: InterfaceKind, name: Seq<char>|
        0 <= i < slots.len() && #[trigger] complete(slots[i].node.endpoints, kind, name)
            && !complete(had(before, i), kind, name) implies tells(
        news,
        true,
        slots[i].node,
        kind,
        name,
    ) by {
        if i == m {
            lemma_nothing_complete(slots[i].node.endpoints, kind, name);
        } else {
            assert(complete(st.slots[i].node.endpoints, kind, name));
        }
    }
    assert forall|k: int| 0 <= k < news.len() implies from_node(
        before,
        slots,
        #[trigger] news[k],
    ) by {
        assert(from_node(before, st.slots, news[k]));
        let i = choose|i: int|
            0 <= i < st.slots.len() && (#[trigger] st.slots[i]).name != ORPHAN_NODE_NAME@
                && appeared(had(before, i), st.slots[i].node, news[k]);
        assert(slots[i] == st.slots[i]);
    }
    assert forall|i: int, j: int|
        #![trigger slots[i].node.endpoints[j]]
        0 <= i < slots.len() && had(before, i).len() <= j
            < slots[i].node.endpoints.len() implies declares(
        decls,
        n + 1,
        slots[i].name,
        slots[i].node.endpoints[j],
        readers,
        writers,
        skip,
    ) by {
        assert(i < m);
        assert(slots[i].node.endpoints[j] == st.slots[i].node.endpoints[j]);
        lemma_declares_more(
            decls,
            n,
            slots[i].name,
            slots[i].node.endpoints[j],
            readers,
            writers,
            skip,
        );
    }
    assert forall|i: int, j: int, writer: bool|
        #![trigger slots[i].node.undiscovered(writer)[j]]
        0 <= i < slots.len() && awaited_at(before, i, writer).len() <= j
            < slots[i].node.undiscovered(writer).len() implies is_awaited(
        decls,
        n + 1,
        slots[i].name,
        slots[i].node.undiscovered(writer)[j],
        writer,
        readers,
        writers,
        skip,
    ) by {
        if i == m {
            assert(slots[m].node.undiscovered(writer).len() == 0);
        }
        assert(slots[i].node.undiscovered(writer)[j] == st.slots[i].node.undiscovered(writer)[j]);
        lemma_awaited_more(
            decls,
            n,
            slots[i].name,
            slots[i].node.undiscovered(writer)[j],
            writer,
            readers,
            writers,
            skip,
        );
    }
}

/// The step from one declaration to the next.
#[verifier::rlimit(40)]
proof fn lemma_so_far_step(
    participant: Gid,
    before: Seq<SlotView>,
    slots: Seq<SlotView>,
    at: int,
    node: NodeView,
    decls: Seq<NodeDeclView>,
    n: nat,
    readers: Seq<EntityView>,
    writers: Seq<EntityView>,
    skip: Set<Gid>,
    news: Seq<EventView>,
    more: Seq<EventView>,
)
    requires
        n < decls.len(),
        slots_wf(participant, slots),
        0 <= at < slots.len(),
        slots[at].name == decls[n as int].key(),
        slots[at].name != ORPHAN_NODE_NAME@,
        so_far(before, slots, decls, n + 1, readers, writers, skip, news),
        tells_growth(slots[at].node, node, more),
        waits_on(slots[at].node, node),
        forall|i: int|
            slots[at].node.endpoints.len() <= i < node.endpoints.len() ==> is_declared(
                #[trigger] node.endpoints[i],
                decls[n as int],
                readers,
                writers,
                skip,
            ),
        forall|i: int|
            slots[at].node.undiscovered_readers.len() <= i < node.undiscovered_readers.len()
                ==> decls[n as int].readers.contains(#[trigger] node.undiscovered_readers[i])
                && !found(readers, node.undiscovered_readers[i]),
        forall|i: int|
            slots[at].node.undiscovered_writers.len() <= i < node.undiscovered_writers.len()
                ==> decls[n as int].writers.contains(#[trigger] node.undiscovered_writers[i])
                && !found(writers, node.undiscovered_writers[i]) && !skip.contains(
                node.undiscovered_writers[i],
            ),
    ensures
        so_far(
            before,
            slots.update(at, SlotView { name: slots[at].name, node }),
            decls,
            n + 1,
            readers,
            writers,
            skip,
            news + more,
        ),
{
    let after = slots.update(at, SlotView { name: slots[at].name, node });
    let all = news + more;
    let old = slots[at].node;
    assert(slot_wf(participant, slots[at]));
    assert forall|i: int| 0 <= i < before.len() implies (#[trigger] after[i]).name
        == before[i].name && grown(before[i].node, after[i].node) && waits_on(
        before[i].node,
        after[i].node,
    ) by {
        assert(slots[i].name == before[i].name);
        if i == at {
            let a = before[i].node;
            assert(a.endpoints.is_prefix_of(node.endpoints)) by {
                assert forall|e: int| 0 <= e < a.endpoints.len() implies a.endpoints[e]
                    == node.endpoints[e] by {
                    assert(a.endpoints[e] == old.endpoints[e]);
                    assert(old.endpoints[e] == node.endpoints[e]);
                }
                assert(a.endpoints =~= node.endpoints.subrange(0, a.endpoints.len() as int));
            }
        }
    }
    assert forall|i: int| before.len() <= i < after.len() implies named_before(
        decls,
        n + 1,
        (#[trigger] after[i]).name,
    ) by {
        assert(named_before(decls, n + 1, slots[i].name));
    }
    assert forall|i: int, kind: InterfaceKind, name: Seq<char>|
        0 <= i < after.len() && #[trigger] complete(after[i].node.endpoints, kind, name)
            && !complete(had(before, i), kind, name) implies tells(
        all,
        true,
        after[i].node,
        kind,
        name,
    ) by {
        if i != at {
            assert(complete(slots[i].node.endpoints, kind, name));
        } else if complete(old.endpoints, kind, name) {
            assert(complete(slots[at].node.endpoints, kind, name));
            assert(tells(news, true, old, kind, name));
            let k = choose|k: int|
                0 <= k < news.len() && is_news(#[trigger] news[k], true, old, kind, name);
            lemma_typed_grows(old.endpoints, node.endpoints, kind, name, news[k].dds_type);
            assert(is_news(news[k], true, node, kind, name));
        } else {
            assert(complete(node.endpoints, kind, name));
        }
        lemma_tells_more(news, more, true, after[i].node, kind, name);
    }
    assert forall|k: int| 0 <= k < all.len() implies from_node(before, after, #[trigger] all[k]) by {
        let event = all[k];
        if k < news.len() {
            assert(all[k] == news[k]);
            assert(from_node(before, slots, news[k]));
            let i = choose|i: int|
                0 <= i < slots.len() && (#[trigger] slots[i]).name != ORPHAN_NODE_NAME@
                    && appeared(had(before, i), slots[i].node, event);
            if i == at {
                lemma_typed_grows(
                    old.endpoints,
                    node.endpoints,
                    event.kind,
                    event.name,
                    event.dds_type,
                );
                lemma_complete_grows(old.endpoints, node.endpoints, event.kind, event.name);
            }
            assert(appeared(had(before, i), after[i].node, event));
            assert(after[i].name == slots[i].name);
        } else {
            assert(all[k] == more[k - news.len()]);
            assert(appeared(old.endpoints, node, more[k - news.len()]));
            if complete(had(before, at), event.kind, event.name) {
                if at < before.len() {
                    assert(grown(before[at].node, slots[at].node));
                    lemma_complete_grows(had(before, at), old.endpoints, event.kind, event.name);
                } else {
                    lemma_nothing_complete(had(before, at), event.kind, event.name);
                }
            }
            assert(appeared(had(before, at), after[at].node, event));
            assert(after[at].name == slots[at].name);
        }
    }
    assert forall|k: int, l: int| 0 <= k < l < all.len() implies !same_subject(
        #[trigger] all[k],
        #[trigger] all[l],
    ) by {
        if l < news.len() {
            assert(all[k] == news[k] && all[l] == news[l]);
        } else if k >= news.len() {
            assert(all[k] == more[k - news.len()] && all[l] == more[l - news.len()]);
        } else {
            assert(all[k] == news[k] && all[l] == more[l - news.len()]);
            assert(from_node(before, slots, news[k]));
            let i = choose|i: int|
                0 <= i < slots.len() && (#[trigger] slots[i]).name != ORPHAN_NODE_NAME@
                    && appeared(had(before, i), slots[i].node, news[k]);
            assert(appeared(old.endpoints, node, more[l - news.len()]));
            if same_subject(all[k], all[l]) {
                assert(slot_wf(participant, slots[i]));
                assert(slots[i].key() == slots[at].key());
                if i != at {
                    assert(unique(slots));
                    lemma_place(slots, i);
                    lemma_place(slots, at);
                }
                assert(i == at);
                assert(false);
            }
        }
    }
    assert forall|i: int, j: int|
        #![trigger after[i].node.endpoints[j]]
        0 <= i < after.len() && had(before, i).len() <= j
            < after[i].node.endpoints.len() implies declares(
        decls,
        n + 1,
        after[i].name,
        after[i].node.endpoints[j],
        readers,
        writers,
        skip,
    ) by {
        if i != at || j < old.endpoints.len() {
            assert(after[i].node.endpoints[j] == slots[i].node.endpoints[j]);
            assert(declares(
                decls,
                n + 1,
                slots[i].name,
                slots[i].node.endpoints[j],
                readers,
                writers,
                skip,
            ));
        } else {
            assert(is_declared(node.endpoints[j], decls[n as int], readers, writers, skip));
            assert(decls[n as int].key() == after[i].name);
        }
    }
    assert forall|i: int, j: int, writer: bool|
        #![trigger after[i].node.undiscovered(writer)[j]]
        0 <= i < after.len() && awaited_at(before, i, writer).len() <= j
            < after[i].node.undiscovered(writer).len() implies is_awaited(
        decls,
        n + 1,
        after[i].name,
        after[i].node.undiscovered(writer)[j],
        writer,
        readers,
        writers,
        skip,
    ) by {
        if i != at || j < old.undiscovered(writer).len() {
            assert(after[i].node.undiscovered(writer)[j] == slots[i].node.undiscovered(writer)[j]);
            assert(is_awaited(
                decls,
                n + 1,
                slots[i].name,
                slots[i].node.undiscovered(writer)[j],
                writer,
                readers,
                writers,
                skip,
            ));
        } else {
            if writer {
                assert(decls[n as int].writers.contains(node.undiscovered_writers[j]));
            } else {
                assert(decls[n as int].readers.contains(node.undiscovered_readers[j]));
            }
            assert(decls[n as int].key() == after[i].name);
        }
    }
}

/// What the first `n` declarations add, and what they tell.
#[verifier::rlimit(60)]
#[verifier::spinoff_prover]
proof fn lemma_so_far(
    participant: Gid,
    st: Declaring,
    decls: Seq<NodeDeclView>,
    readers: Seq<EntityView>,
    writers: Seq<EntityView>,
    skip: Set<Gid>,
    n: nat,
) -> (news: Seq<EventView>)
    requires
        declaring_wf(participant, st),
        !st.stopped,
        n <= decls.len(),
    ensures
        ({
            let after = declaring_all(st, participant, decls, readers, writers, skip, n);
            &&& declaring_wf(participant, after)
            &&& so_far(st.slots, after.slots, decls, n, readers, writers, skip, news)
            &&& after.events == st.events + news
        }),
    decreases n,
{
    if n == 0 {
        assert(st.events =~= st.events + Seq::<EventView>::empty());
        Seq::empty()
    } else {
        let m = (n - 1) as nat;
        let news = lemma_so_far(participant, st, decls, readers, writers, skip, m);
        let mid = declaring_all(st, participant, decls, readers, writers, skip, m);
        let after = declaring_all(st, participant, decls, readers, writers, skip, n);
        let decl = decls[m as int];
        lemma_declaring(mid, participant, decl, readers, writers, skip);
        if mid.stopped || !can_declare(mid.slots, participant, decl) {
            assert(after.slots == mid.slots);
            assert forall|i: int| st.slots.len() <= i < after.slots.len() implies named_before(
                decls,
                n,
                (#[trigger] after.slots[i]).name,
            ) by {
                assert(named_before(decls, m, mid.slots[i].name));
                let d = choose|d: int|
                    0 <= d < m && (#[trigger] decls[d]).key() == mid.slots[i].name;
                assert(decls[d].key() == after.slots[i].name);
            }
            assert forall|i: int, j: int|
                #![trigger after.slots[i].node.endpoints[j]]
                0 <= i < after.slots.len() && had(st.slots, i).len() <= j
                    < after.slots[i].node.endpoints.len() implies declares(
                decls,
                n,
                after.slots[i].name,
                after.slots[i].node.endpoints[j],
                readers,
                writers,
                skip,
            ) by {
                lemma_declares_more(
                    decls,
                    m,
                    after.slots[i].name,
                    after.slots[i].node.endpoints[j],
                    readers,
                    writers,
                    skip,
                );
            }
            assert forall|i: int, j: int, writer: bool|
                #![trigger after.slots[i].node.undiscovered(writer)[j]]
                0 <= i < after.slots.len() && awaited_at(st.slots, i, writer).len() <= j
                    < after.slots[i].node.undiscovered(writer).len() implies is_awaited(
                decls,
                n,
                after.slots[i].name,
                after.slots[i].node.undiscovered(writer)[j],
                writer,
                readers,
                writers,
                skip,
            ) by {
                lemma_awaited_more(
                    decls,
                    m,
                    after.slots[i].name,
                    after.slots[i].node.undiscovered(writer)[j],
                    writer,
                    readers,
                    writers,
                    skip,
                );
            }
            news
        } else {
            lemma_full_name_is_no_orphan(decl.namespace, decl.name);
            lemma_so_far_with_node(
                participant,
                st.slots,
                mid,
                decls,
                m,
                readers,
                writers,
                skip,
                news,
            );
            let slots = with_node(mid.slots, mid.admin, participant, decl).0;
            lemma_with_node_wf(participant, mid, decl);
            let at = place(slots, decl.key());
            lemma_found(slots, decl.key());
            let (node, more) = node_declared(slots[at].node, decl, readers, writers, skip);
            lemma_node_declared_tells(slots[at].node, decl, readers, writers, skip);
            lemma_so_far_step(
                participant,
                st.slots,
                slots,
                at,
                node,
                decls,
                m,
                readers,
                writers,
                skip,
                news,
                more,
            );
            assert(after.events =~= st.events + (news + more));
            news + more
        }
    }
}

proof fn lemma_with_node_wf(participant: Gid, st: Declaring, decl: NodeDeclView)
    requires
        declaring_wf(participant, st),
        decl.key() != ORPHAN_NODE_NAME@,
    ensures
        ({
            let slots = with_node(st.slots, st.admin, participant, decl).0;
            slots_wf(participant, slots) && found(slots, decl.key())
        }),
{
    let slots = with_node(st.slots, st.admin, participant, decl).0;
    if !found(st.slots, decl.key()) {
        let m = st.slots.len() as int;
        assert(slots[m].key() == decl.key());
        assert(unique(slots)) by {
            assert forall|i: int, j: int|
                #![trigger slots[i], slots[j]]
                0 <= i < j < slots.len() implies slots[i].key() != slots[j].key() by {
                if j == m {
                    assert(st.slots[i].key() != decl.key());
                } else {
                    assert(st.slots[i].key() != st.slots[j].key());
                }
            }
        }
        assert forall|s: int| 0 <= s < slots.len() implies slot_wf(
            participant,
            #[trigger] slots[s],
        ) by {
            if s < m {
                assert(slot_wf(participant, st.slots[s]));
            }
        }
    }
}

// ---------------------------------------------------------------------------
// Nodes that are gone
// ---------------------------------------------------------------------------

/// The event tells the end of an interface that was complete on the node.
pub open spec fn ended(node: NodeView, event: EventView) -> bool {
    is_news(event, false, node, event.kind, event.name) && complete(
        node.endpoints,
        event.kind,
        event.name,
    )
}

proof fn lemma_ends_told(node: NodeView, n: nat)
    requires
        n <= node.endpoints.len(),
    ensures
        forall|i: int|
            0 <= i < n && complete(
                node.endpoints,
                (#[trigger] node.endpoints[i]).kind,
                node.endpoints[i].name,
            ) ==> tells(
                ends(node, n),
                false,
                node,
                node.endpoints[i].kind,
                node.endpoints[i].name,
            ),
        forall|k: int| 0 <= k < ends(node, n).len() ==> ended(node, #[trigger] ends(node, n)[k]),
        forall|k: int|
            0 <= k < ends(node, n).len() ==> interface_before(
                node.endpoints,
                (#[trigger] ends(node, n)[k]).kind,
                ends(node, n)[k].name,
                n as int,
            ),
        told_once(ends(node, n)),
    decreases n,
{
    if n > 0 {
        lemma_ends_told(node, (n - 1) as nat);
        let before = ends(node, (n - 1) as nat);
        let after = ends(node, n);
        let eps = node.endpoints;
        let e = eps[n - 1];
        let fresh = complete(eps, e.kind, e.name) && !interface_before(eps, e.kind, e.name, n - 1);
        let ev = event_about(node, e, false);
        let more = if fresh {
            seq![ev]
        } else {
            Seq::empty()
        };
        assert(after =~= before + more);
        assert(typed(eps, e.kind, e.name, e.dds_type));
        assert forall|i: int|
            0 <= i < n && complete(eps, (#[trigger] eps[i]).kind, eps[i].name) implies tells(
            after,
            false,
            node,
            eps[i].kind,
            eps[i].name,
        ) by {
            lemma_tells_more(before, more, false, node, eps[i].kind, eps[i].name);
            if i == n - 1 {
                if fresh {
                    assert(more[0] == ev);
                    assert(is_news(more[0], false, node, e.kind, e.name));
                } else {
                    let j = choose|j: int|
                        0 <= j < n - 1 && (#[trigger] eps[j]).kind == e.kind && eps[j].name
                            == e.name;
                    assert(tells(before, false, node, eps[j].kind, eps[j].name));
                }
            }
        }
        assert forall|k: int| 0 <= k < after.len() implies ended(node, #[trigger] after[k])
            && interface_before(eps, after[k].kind, after[k].name, n as int) by {
            if k < before.len() {
                assert(after[k] == before[k]);
                assert(interface_before(eps, before[k].kind, before[k].name, n - 1));
                let j = choose|j: int|
                    0 <= j < n - 1 && (#[trigger] eps[j]).kind == before[k].kind && eps[j].name
                        == before[k].name;
                assert(eps[j].kind == after[k].kind);
            } else {
                assert(after[k] == ev);
                assert(eps[n - 1].kind == ev.kind);
            }
        }
        assert forall|k: int, l: int| 0 <= k < l < after.len() implies !same_subject(
            #[trigger] after[k],
            #[trigger] after[l],
        ) by {
            assert(after[k] == before[k]);
            assert(interface_before(eps, before[k].kind, before[k].name, n - 1));
            if l < before.len() {
                assert(after[l] == before[l]);
            }
        }
    }
}

/// The end of a node ends each of its complete interfaces, once, and nothing else.
pub proof fn law_end_of_node_is_told(node: NodeView)
    ensures
        forall|kind: InterfaceKind, name: Seq<char>| #[trigger]
            complete(node.endpoints, kind, name) ==> tells(
                all_ends(node),
                false,
                node,
                kind,
                name,
            ),
        forall|k: int| 0 <= k < all_ends(node).len() ==> ended(node, #[trigger] all_ends(node)[k]),
        told_once(all_ends(node)),
{
    lemma_ends_told(node, node.endpoints.len());
    assert forall|kind: InterfaceKind, name: Seq<char>| #[trigger]
        complete(node.endpoints, kind, name) implies tells(
        all_ends(node),
        false,
        node,
        kind,
        name,
    ) by {
        let i = lemma_complete_has_endpoint(node.endpoints, kind, name);
        assert(node.endpoints[i].kind == kind);
    }
}

/// One of the nodes ends an interface by the event.
spec fn ended_among(slots: Seq<SlotView>, n: nat, event: EventView) -> bool {
    exists|s: int| 0 <= s < n && ended((#[trigger] slots[s]).node, event)
}

/// The nodes have different full names.
spec fn names_differ(slots: Seq<SlotView>) -> bool {
    forall|i: int, j: int|
        0 <= i < j < slots.len() ==> (#[trigger] slots[i]).node.fullname() != (
        #[trigger] slots[j]).node.fullname()
}

proof fn lemma_nodes_gone_told(slots: Seq<SlotView>, admin: Seq<crate::discovery_model::AdminView>, n: nat)
    requires
        n <= slots.len(),
    ensures
        forall|s: int, kind: InterfaceKind, name: Seq<char>|
            0 <= s < n && #[trigger] complete(slots[s].node.endpoints, kind, name) ==> tells(
                nodes_gone(slots, admin, n).1,
                false,
                slots[s].node,
                kind,
                name,
            ),
        forall|k: int|
            0 <= k < nodes_gone(slots, admin, n).1.len() ==> ended_among(
                slots,
                n,
                #[trigger] nodes_gone(slots, admin, n).1[k],
            ),
        names_differ(slots) ==> told_once(nodes_gone(slots, admin, n).1),
    decreases n,
{
    if n > 0 {
        let m = (n - 1) as nat;
        lemma_nodes_gone_told(slots, admin, m);
        let node = slots[m as int].node;
        law_end_of_node_is_told(node);
        let events = nodes_gone(slots, admin, m).1;
        let more = all_ends(node);
        let all = nodes_gone(slots, admin, n).1;
        assert(all == events + more);
        assert forall|s: int, kind: InterfaceKind, name: Seq<char>|
            0 <= s < n && #[trigger] complete(slots[s].node.endpoints, kind, name) implies tells(
            all,
            false,
            slots[s].node,
            kind,
            name,
        ) by {
            lemma_tells_more(events, more, false, slots[s].node, kind, name);
        }
        assert forall|k: int| 0 <= k < all.len() implies ended_among(slots, n, #[trigger] all[k]) by {
            if k < events.len() {
                assert(all[k] == events[k]);
                let s = choose|s: int| 0 <= s < m && ended((#[trigger] slots[s]).node, events[k]);
                assert(ended(slots[s].node, all[k]));
            } else {
                assert(all[k] == more[k - events.len()]);
                assert(ended(slots[m as int].node, all[k]));
            }
        }
        if names_differ(slots) {
            assert forall|k: int, l: int| 0 <= k < l < all.len() implies !same_subject(
                #[trigger] all[k],
                #[trigger] all[l],
            ) by {
                if l < events.len() {
                    assert(all[k] == events[k] && all[l] == events[l]);
                } else if k >= events.len() {
                    assert(all[k] == more[k - events.len()] && all[l] == more[l - events.len()]);
                } else {
                    assert(all[k] == events[k] && all[l] == more[l - events.len()]);
                    assert(ended_among(slots, m, events[k]));
                    let s = choose|s: int|
                        0 <= s < m && ended((#[trigger] slots[s]).node, events[k]);
                    assert(ended(node, all[l]));
                    assert(slots[s].node.fullname() != slots[m as int].node.fullname());
                }
            }
        }
    }
}

/// The endpoints of a node, none if it is not there.
pub open spec fn endpoints_at(
    nodes: Seq<ParticipantNodesView>,
    participant: Gid,
    node: Seq<char>,
) -> Seq<EndpointView> {
    match node_at(nodes, participant, node) {
        Some(node) => node.endpoints,
        None => Seq::empty(),
    }
}

/// Whoever waits for the end of an interface of a departed participant is told:
/// each interface that was complete on one of its nodes ends.
pub proof fn law_departed_participant_is_told(
    v: EntitiesView,
    gid: Gid,
    node: Seq<char>,
    kind: InterfaceKind,
    name: Seq<char>,
)
    requires
        v.wf(),
        complete(endpoints_at(v.nodes, gid, node), kind, name),
    ensures
        node_at(v.nodes, gid, node) matches Some(nd) && tells(
            v.participant_removed(gid).1,
            false,
            nd,
            kind,
            name,
        ),
{
    lemma_no_node_nothing_complete(v.nodes, gid, node, kind, name);
    let p = place(v.nodes, gid);
    lemma_found(v.nodes, gid);
    let slots = v.nodes[p].slots;
    lemma_found(slots, node);
    let s = place(slots, node);
    let admin = crate::table::removed(v.admin, crate::admin_keys::participant_key(gid));
    lemma_nodes_gone_told(slots, admin, slots.len());
    assert(complete(slots[s].node.endpoints, kind, name));
}

proof fn lemma_no_node_nothing_complete(
    nodes: Seq<ParticipantNodesView>,
    gid: Gid,
    node: Seq<char>,
    kind: InterfaceKind,
    name: Seq<char>,
)
    requires
        complete(endpoints_at(nodes, gid, node), kind, name),
    ensures
        node_at(nodes, gid, node) is Some,
        found(nodes, gid),
        found(nodes[place(nodes, gid)].slots, node),
{
    if node_at(nodes, gid, node) is None {
        lemma_nothing_complete(Seq::empty(), kind, name);
    }
}

/// The event tells the end of an interface of one of the participant's nodes.
pub open spec fn ended_at(
    nodes: Seq<ParticipantNodesView>,
    gid: Gid,
    node: Seq<char>,
    event: EventView,
) -> bool {
    node_at(nodes, gid, node) matches Some(nd) && ended(nd, event)
}

/// The event tells the end of an interface of some node of the participant.
pub open spec fn ended_somewhere(
    nodes: Seq<ParticipantNodesView>,
    gid: Gid,
    event: EventView,
) -> bool {
    exists|node: Seq<char>| #[trigger] ended_at(nodes, gid, node, event)
}

/// The departure of a participant tells nothing but the end of interfaces that
/// were complete on its nodes, and nothing twice unless a node has taken the name
/// of the orphan node.
pub proof fn law_departed_participant_tells_nothing_else(v: EntitiesView, gid: Gid)
    requires
        v.wf(),
    ensures
        forall|k: int|
            0 <= k < v.participant_removed(gid).1.len() ==> ended_somewhere(
                v.nodes,
                gid,
                #[trigger] v.participant_removed(gid).1[k],
            ),
        node_at(v.nodes, gid, crate::discovery_model::orphan_fullname()) is None ==> told_once(
            v.participant_removed(gid).1,
        ),
{
    let events = v.participant_removed(gid).1;
    if found(v.nodes, gid) {
        let p = place(v.nodes, gid);
        lemma_found(v.nodes, gid);
        let slots = v.nodes[p].slots;
        assert(slots_wf(gid, slots));
        let admin = crate::table::removed(v.admin, crate::admin_keys::participant_key(gid));
        lemma_nodes_gone_told(slots, admin, slots.len());
        assert forall|k: int| 0 <= k < events.len() implies ended_somewhere(
            v.nodes,
            gid,
            #[trigger] events[k],
        ) by {
            assert(ended_among(slots, slots.len(), events[k]));
            let s = choose|s: int|
                0 <= s < slots.len() && ended((#[trigger] slots[s]).node, events[k]);
            lemma_place(slots, s);
            assert(ended_at(v.nodes, gid, slots[s].name, events[k]));
        }
        if node_at(v.nodes, gid, crate::discovery_model::orphan_fullname()) is None {
            assert(names_differ(slots)) by {
                assert forall|i: int, j: int| 0 <= i < j < slots.len() implies (
                #[trigger] slots[i]).node.fullname() != (#[trigger] slots[j]).node.fullname() by {
                    assert(slot_wf(gid, slots[i]) && slot_wf(gid, slots[j]));
                    assert(slots[i].key() != slots[j].key());
                    lemma_place(slots, i);
                    lemma_place(slots, j);
                }
            }
        }
    }
}

// ---------------------------------------------------------------------------
// What a declaration tells
// ---------------------------------------------------------------------------

/// Each node stays or leaves.
proof fn lemma_parted(slots: Seq<SlotView>, decls: Seq<NodeDeclView>, n: nat)
    requires
        unique(slots),
        n <= slots.len(),
    ensures
        forall|j: int|
            0 <= j < n && stays(#[trigger] slots[j], decls) ==> staying(
                slots,
                decls,
                n,
            ).contains(slots[j]),
        forall|j: int|
            0 <= j < n && !stays(#[trigger] slots[j], decls) ==> leaving(
                slots,
                decls,
                n,
            ).contains(slots[j]),
        forall|i: int|
            0 <= i < staying(slots, decls, n).len() ==> stays(
                #[trigger] staying(slots, decls, n)[i],
                decls,
            ) && slots.take(n as int).contains(staying(slots, decls, n)[i]),
        forall|i: int|
            0 <= i < leaving(slots, decls, n).len() ==> !stays(
                #[trigger] leaving(slots, decls, n)[i],
                decls,
            ) && slots.take(n as int).contains(leaving(slots, decls, n)[i]),
        unique(leaving(slots, decls, n)),
    decreases n,
{
    if n > 0 {
        let m = (n - 1) as nat;
        lemma_parted(slots, decls, m);
        let last = slots[m as int];
        let stay = staying(slots, decls, n);
        let gone = leaving(slots, decls, n);
        let stay0 = staying(slots, decls, m);
        let gone0 = leaving(slots, decls, m);
        assert forall|x: SlotView| #[trigger] slots.take(m as int).contains(x) implies slots.take(
            n as int,
        ).contains(x) by {
            let i = choose|i: int| 0 <= i < m && slots.take(m as int)[i] == x;
            assert(slots.take(n as int)[i] == x);
        }
        assert(slots.take(n as int)[m as int] == last);
        assert forall|j: int| 0 <= j < n && stays(#[trigger] slots[j], decls) implies stay.contains(
            slots[j],
        ) by {
            if j < m {
                let i = choose|i: int| 0 <= i < stay0.len() && stay0[i] == slots[j];
                assert(stay[i] == slots[j]);
            } else {
                assert(stay[stay0.len() as int] == slots[j]);
            }
        }
        assert forall|j: int| 0 <= j < n && !stays(#[trigger] slots[j], decls) implies gone.contains(
            slots[j],
        ) by {
            if j < m {
                let i = choose|i: int| 0 <= i < gone0.len() && gone0[i] == slots[j];
                assert(gone[i] == slots[j]);
            } else {
                assert(gone[gone0.len() as int] == slots[j]);
            }
        }
        assert forall|i: int| 0 <= i < stay.len() implies stays(#[trigger] stay[i], decls)
            && slots.take(n as int).contains(stay[i]) by {
            if i < stay0.len() {
                assert(stay[i] == stay0[i]);
            }
        }
        assert forall|i: int| 0 <= i < gone.len() implies !stays(#[trigger] gone[i], decls)
            && slots.take(n as int).contains(gone[i]) by {
            if i < gone0.len() {
                assert(gone[i] == gone0[i]);
            }
        }
        assert forall|i: int, j: int|
            #![trigger gone[i], gone[j]]
            0 <= i < j < gone.len() implies gone[i].key() != gone[j].key() by {
            assert(gone[i] == gone0[i]);
            if j < gone0.len() {
                assert(gone[j] == gone0[j]);
            } else {
                assert(slots.take(m as int).contains(gone0[i]));
                let a = choose|a: int| 0 <= a < m && slots.take(m as int)[a] == gone0[i];
                assert(slots[a].key() != slots[m as int].key());
            }
        }
    }
}

/// The nodes of a participant, none if it is not there.
spec fn slots_at(nodes: Seq<ParticipantNodesView>, gid: Gid) -> Seq<SlotView> {
    match lookup(nodes, gid) {
        Some(p) => p.slots,
        None => Seq::empty(),
    }
}

spec fn node_in(slots: Seq<SlotView>, name: Seq<char>) -> Option<NodeView> {
    match lookup(slots, name) {
        Some(slot) => Some(slot.node),
        None => None,
    }
}

/// What a declaration is made of.
struct Parts {
    pub slots: Seq<SlotView>,
    pub stay: Seq<SlotView>,
    pub gone: Seq<SlotView>,
    pub ends: Seq<EventView>,
    pub grown: Seq<SlotView>,
    pub news: Seq<EventView>,
    pub skip: Set<Gid>,
}

proof fn lemma_declaration(v: EntitiesView, info: ParticipantDeclView) -> (d: Parts)
    requires
        v.wf(),
    ensures
        ({
            let (after, events) = v.participant_declared(info);
            &&& d.slots == slots_at(v.nodes, info.gid)
            &&& d.skip == orphan_owned(v.nodes)
            &&& slots_wf(info.gid, d.slots)
            &&& slots_wf(info.gid, d.stay)
            &&& slots_wf(info.gid, d.grown)
            &&& d.stay == staying(d.slots, info.nodes, d.slots.len())
            &&& d.gone == leaving(d.slots, info.nodes, d.slots.len())
            &&& d.ends == nodes_gone(d.gone, v.admin, d.gone.len()).1
            &&& events == d.ends + d.news
            &&& so_far(
                d.stay,
                d.grown,
                info.nodes,
                info.nodes.len(),
                v.readers,
                v.writers,
                d.skip,
                d.news,
            )
            &&& lookup(after.nodes, info.gid) == Some(
                ParticipantNodesView { gid: info.gid, slots: d.grown },
            )
            &&& forall|g: Gid|
                g != info.gid ==> #[trigger] lookup(after.nodes, g) == lookup(v.nodes, g)
            &&& d.grown == declaring_all(
                Declaring {
                    slots: d.stay,
                    admin: nodes_gone(d.gone, v.admin, d.gone.len()).0,
                    events: d.ends,
                    stopped: false,
                },
                info.gid,
                info.nodes,
                v.readers,
                v.writers,
                d.skip,
                info.nodes.len(),
            ).slots
            &&& after.admin == declaring_all(
                Declaring {
                    slots: d.stay,
                    admin: nodes_gone(d.gone, v.admin, d.gone.len()).0,
                    events: d.ends,
                    stopped: false,
                },
                info.gid,
                info.nodes,
                v.readers,
                v.writers,
                d.skip,
                info.nodes.len(),
            ).admin
            &&& declaring_wf(
                info.gid,
                Declaring {
                    slots: d.stay,
                    admin: nodes_gone(d.gone, v.admin, d.gone.len()).0,
                    events: d.ends,
                    stopped: false,
                },
            )
        }),
{
    let g = info.gid;
    let nodes = with_participant(v.nodes, g);
    lemma_with_participant(v.nodes, g, v.admin);
    let p = place(nodes, g);
    lemma_found(nodes, g);
    let slots = nodes[p].slots;
    if !found(v.nodes, g) {
        let m = v.nodes.len() as int;
        assert(nodes[m].key() == g);
        lemma_place(nodes, m);
    }
    assert(slots == slots_at(v.nodes, g));
    assert(slots_wf(nodes[p].gid, slots));
    assert(crate::discovery_model::slots_listed(nodes[p].gid, slots, v.admin));
    lemma_retired(g, slots, info.nodes, v.admin);
    let gone = leaving(slots, info.nodes, slots.len());
    let (admin, events) = nodes_gone(gone, v.admin, gone.len());
    let stay = staying(slots, info.nodes, slots.len());
    let st = Declaring { slots: stay, admin, events, stopped: false };
    let skip = orphan_owned(v.nodes);
    let news = lemma_so_far(g, st, info.nodes, v.readers, v.writers, skip, info.nodes.len());
    let end = declaring_all(st, g, info.nodes, v.readers, v.writers, skip, info.nodes.len());
    let after = v.participant_declared(info).0.nodes;
    lemma_update_same_key(nodes, p, after[p]);
    crate::table::lemma_stored(nodes, after[p]);
    assert forall|q: Gid| q != g implies #[trigger] lookup(after, q) == lookup(v.nodes, q) by {
        assert(lookup(after, q) == lookup(nodes, q));
        if !found(v.nodes, g) {
            let row = ParticipantNodesView { gid: g, slots: Seq::empty() };
            assert(nodes == crate::table::stored(v.nodes, row));
            crate::table::lemma_stored(v.nodes, row);
        }
    }
    Parts { slots, stay, gone, ends: events, grown: end.slots, news, skip }
}

/// What appears by a declaration is told: each interface that is complete on a
/// node of the participant afterwards, and was not before.
pub proof fn law_declaration_tells_what_appears(
    v: EntitiesView,
    info: ParticipantDeclView,
    node: Seq<char>,
    kind: InterfaceKind,
    name: Seq<char>,
)
    requires
        v.wf(),
        complete(
            endpoints_at(v.participant_declared(info).0.nodes, info.gid, node),
            kind,
            name,
        ),
        !complete(endpoints_at(v.nodes, info.gid, node), kind, name),
    ensures
        node_at(v.participant_declared(info).0.nodes, info.gid, node) matches Some(nd) && tells(
            v.participant_declared(info).1,
            true,
            nd,
            kind,
            name,
        ),
{
    let (after, events) = v.participant_declared(info);
    let d = lemma_declaration(v, info);
    lemma_no_node_nothing_complete(after.nodes, info.gid, node, kind, name);
    let i = place(d.grown, node);
    lemma_found(d.grown, node);
    assert(complete(d.grown[i].node.endpoints, kind, name));
    if i < d.stay.len() {
        lemma_parted(d.slots, info.nodes, d.slots.len());
        assert(d.grown[i].name == d.stay[i].name);
        assert(d.slots.take(d.slots.len() as int) =~= d.slots);
        assert(d.slots.contains(d.stay[i]));
        let j = choose|j: int| 0 <= j < d.slots.len() && d.slots[j] == d.stay[i];
        lemma_place(d.slots, j);
        assert(node_at(v.nodes, info.gid, node) == Some(d.stay[i].node));
        assert(had(d.stay, i) == endpoints_at(v.nodes, info.gid, node));
    } else {
        lemma_nothing_complete_had(d.stay, i, kind, name);
    }
    lemma_tells_more(d.ends, d.news, true, d.grown[i].node, kind, name);
}

proof fn lemma_nothing_complete_had(
    slots: Seq<SlotView>,
    i: int,
    kind: InterfaceKind,
    name: Seq<char>,
)
    requires
        i >= slots.len(),
    ensures
        !complete(had(slots, i), kind, name),
{
    lemma_nothing_complete(had(slots, i), kind, name);
}

/// What ends by a declaration is told: each interface that was complete on a node
/// that is no longer declared. That node is gone.
pub proof fn law_declaration_tells_what_ends(
    v: EntitiesView,
    info: ParticipantDeclView,
    node: Seq<char>,
    kind: InterfaceKind,
    name: Seq<char>,
)
    requires
        v.wf(),
        node != ORPHAN_NODE_NAME@,
        forall|d: int| 0 <= d < info.nodes.len() ==> (#[trigger] info.nodes[d]).key() != node,
    ensures
        node_at(v.participant_declared(info).0.nodes, info.gid, node) is None,
        complete(endpoints_at(v.nodes, info.gid, node), kind, name) ==> (node_at(
            v.nodes,
            info.gid,
            node,
        ) matches Some(nd) && tells(v.participant_declared(info).1, false, nd, kind, name)),
{
    let (after, events) = v.participant_declared(info);
    let d = lemma_declaration(v, info);
    lemma_parted(d.slots, info.nodes, d.slots.len());
    assert(d.slots.take(d.slots.len() as int) =~= d.slots);
    if found(d.grown, node) {
        let i = place(d.grown, node);
        lemma_found(d.grown, node);
        if i < d.stay.len() {
            assert(d.grown[i].name == d.stay[i].name);
            assert(stays(d.stay[i], info.nodes));
        } else {
            assert(named_before(info.nodes, info.nodes.len(), d.grown[i].name));
        }
        assert(false);
    }
    if complete(endpoints_at(v.nodes, info.gid, node), kind, name) {
        lemma_no_node_nothing_complete(v.nodes, info.gid, node, kind, name);
        lemma_found(d.slots, node);
        let j = place(d.slots, node);
        assert(!stays(d.slots[j], info.nodes));
        assert(d.gone.contains(d.slots[j]));
        let s = choose|s: int| 0 <= s < d.gone.len() && d.gone[s] == d.slots[j];
        lemma_nodes_gone_told(d.gone, v.admin, d.gone.len());
        assert(complete(d.gone[s].node.endpoints, kind, name));
        lemma_tells_more(d.ends, d.news, false, d.gone[s].node, kind, name);
    }
}

/// The event tells of an interface that a declaration made complete on the node.
pub open spec fn appeared_at(
    before: Seq<ParticipantNodesView>,
    after: Seq<ParticipantNodesView>,
    gid: Gid,
    node: Seq<char>,
    event: EventView,
) -> bool {
    node_at(after, gid, node) matches Some(nd) && appeared(
        endpoints_at(before, gid, node),
        nd,
        event,
    )
}

/// The event tells what appeared on, or ended with, a node of the participant.
pub open spec fn due(
    v: EntitiesView,
    after: EntitiesView,
    info: ParticipantDeclView,
    event: EventView,
) -> bool {
    if event.discovered {
        exists|node: Seq<char>| #[trigger]
            appeared_at(v.nodes, after.nodes, info.gid, node, event)
    } else {
        exists|node: Seq<char>| #[trigger]
            ended_at(v.nodes, info.gid, node, event) && node_at(after.nodes, info.gid, node) is None
    }
}

/// A declaration tells nothing else, and nothing twice.
pub proof fn law_declaration_tells_nothing_else(v: EntitiesView, info: ParticipantDeclView)
    requires
        v.wf(),
    ensures
        forall|k: int|
            0 <= k < v.participant_declared(info).1.len() ==> due(
                v,
                v.participant_declared(info).0,
                info,
                #[trigger] v.participant_declared(info).1[k],
            ),
        told_once(v.participant_declared(info).1),
{
    let (after, events) = v.participant_declared(info);
    let d = lemma_declaration(v, info);
    lemma_parted(d.slots, info.nodes, d.slots.len());
    assert(d.slots.take(d.slots.len() as int) =~= d.slots);
    lemma_nodes_gone_told(d.gone, v.admin, d.gone.len());
    assert(names_differ(d.gone)) by {
        assert forall|i: int, j: int| 0 <= i < j < d.gone.len() implies (
        #[trigger] d.gone[i]).node.fullname() != (#[trigger] d.gone[j]).node.fullname() by {
            assert(!stays(d.gone[i], info.nodes) && !stays(d.gone[j], info.nodes));
            assert(d.slots.contains(d.gone[i]) && d.slots.contains(d.gone[j]));
            let a = choose|a: int| 0 <= a < d.slots.len() && d.slots[a] == d.gone[i];
            let b = choose|b: int| 0 <= b < d.slots.len() && d.slots[b] == d.gone[j];
            assert(slot_wf(info.gid, d.slots[a]) && slot_wf(info.gid, d.slots[b]));
            assert(d.gone[i].key() != d.gone[j].key());
        }
    }
    assert forall|k: int| 0 <= k < events.len() implies due(v, after, info, #[trigger] events[k]) by {
        if k < d.ends.len() {
            assert(events[k] == d.ends[k]);
            assert(ended_among(d.gone, d.gone.len(), d.ends[k]));
            let s = choose|s: int|
                0 <= s < d.gone.len() && ended((#[trigger] d.gone[s]).node, d.ends[k]);
            assert(d.slots.contains(d.gone[s]));
            let j = choose|j: int| 0 <= j < d.slots.len() && d.slots[j] == d.gone[s];
            lemma_place(d.slots, j);
            let node = d.gone[s].name;
            assert(!stays(d.gone[s], info.nodes));
            assert forall|x: int| 0 <= x < info.nodes.len() implies (#[trigger] info.nodes[x]).key()
                != node by {}
            law_declaration_tells_what_ends(v, info, node, events[k].kind, events[k].name);
            assert(ended_at(v.nodes, info.gid, node, events[k]));
        } else {
            let x = k - d.ends.len();
            assert(events[k] == d.news[x]);
            assert(from_node(d.stay, d.grown, d.news[x]));
            let i = choose|i: int|
                0 <= i < d.grown.len() && (#[trigger] d.grown[i]).name != ORPHAN_NODE_NAME@
                    && appeared(had(d.stay, i), d.grown[i].node, d.news[x]);
            let node = d.grown[i].name;
            lemma_place(d.grown, i);
            if i < d.stay.len() {
                assert(d.grown[i].name == d.stay[i].name);
                assert(d.slots.contains(d.stay[i]));
                let j = choose|j: int| 0 <= j < d.slots.len() && d.slots[j] == d.stay[i];
                lemma_place(d.slots, j);
            } else {
                assert(named_before(info.nodes, info.nodes.len(), node));
                if found(d.slots, node) {
                    let j = place(d.slots, node);
                    lemma_found(d.slots, node);
                    assert(found(info.nodes, node));
                    assert(stays(d.slots[j], info.nodes));
                    assert(d.stay.contains(d.slots[j]));
                    let y = choose|y: int| 0 <= y < d.stay.len() && d.stay[y] == d.slots[j];
                    assert(d.grown[y].name == d.stay[y].name);
                    lemma_place(d.grown, y);
                    assert(false);
                }
            }
            assert(appeared_at(v.nodes, after.nodes, info.gid, node, events[k]));
        }
    }
    assert forall|k: int, l: int| 0 <= k < l < events.len() implies !same_subject(
        #[trigger] events[k],
        #[trigger] events[l],
    ) by {
        if l < d.ends.len() {
            assert(events[k] == d.ends[k] && events[l] == d.ends[l]);
        } else if k >= d.ends.len() {
            assert(events[k] == d.news[k - d.ends.len()]);
            assert(events[l] == d.news[l - d.ends.len()]);
        } else {
            assert(events[k] == d.ends[k] && events[l] == d.news[l - d.ends.len()]);
            assert(ended_among(d.gone, d.gone.len(), d.ends[k]));
            assert(from_node(d.stay, d.grown, d.news[l - d.ends.len()]));
        }
    }
}

// ---------------------------------------------------------------------------
// What a declaration attaches
// ---------------------------------------------------------------------------

proof fn lemma_holds_declared_grows(
    before: NodeView,
    after: NodeView,
    decl: NodeDeclView,
    readers: Seq<EntityView>,
    writers: Seq<EntityView>,
    skip: Set<Gid>,
)
    requires
        grown(before, after),
        waits_on(before, after),
        holds_declared(before, decl, readers, writers, skip),
    ensures
        holds_declared(after, decl, readers, writers, skip),
{
    assert forall|j: int| 0 <= j < decl.readers.len() implies holds_endpoint(
        after,
        #[trigger] decl.readers[j],
        readers,
        false,
    ) by {
        lemma_holds_grows(before, after, decl.readers[j], readers, false);
    }
    assert forall|j: int|
        0 <= j < decl.writers.len() && !skip.contains(#[trigger] decl.writers[j]) implies
        holds_endpoint(after, decl.writers[j], writers, true) by {
        lemma_holds_grows(before, after, decl.writers[j], writers, true);
    }
}

/// Whether the node of the declaration is among the nodes, with all that it
/// declares.
spec fn is_held(
    slots: Seq<SlotView>,
    decl: NodeDeclView,
    readers: Seq<EntityView>,
    writers: Seq<EntityView>,
    skip: Set<Gid>,
) -> bool {
    exists|i: int|
        0 <= i < slots.len() && (#[trigger] slots[i]).name == decl.key() && holds_declared(
            slots[i].node,
            decl,
            readers,
            writers,
            skip,
        )
}

/// One more declaration leaves the nodes as they were, or lets them grow.
proof fn lemma_declaring_holds(
    st: Declaring,
    participant: Gid,
    decl: NodeDeclView,
    readers: Seq<EntityView>,
    writers: Seq<EntityView>,
    skip: Set<Gid>,
)
    requires
        declaring_wf(participant, st),
    ensures
        ({
            let after = declaring(st, participant, decl, readers, writers, skip);
            &&& forall|d: NodeDeclView| #[trigger]
                is_held(st.slots, d, readers, writers, skip) ==> is_held(
                    after.slots,
                    d,
                    readers,
                    writers,
                    skip,
                )
            &&& !after.stopped ==> is_held(after.slots, decl, readers, writers, skip)
            &&& forall|name: Seq<char>| found(st.slots, name) ==> #[trigger] found(
                after.slots,
                name,
            )
            &&& after.stopped == (st.stopped || !(found(st.slots, decl.key())
                || crate::key_expr::field_fits(
                crate::admin_keys::node_id(participant, decl.key()),
            )))
        }),
{
    let after = declaring(st, participant, decl, readers, writers, skip);
    if !after.stopped {
        lemma_full_name_is_no_orphan(decl.namespace, decl.name);
        let slots = with_node(st.slots, st.admin, participant, decl).0;
        lemma_with_node_wf(participant, st, decl);
        let at = place(slots, decl.key());
        lemma_found(slots, decl.key());
        let (node, more) = node_declared(slots[at].node, decl, readers, writers, skip);
        lemma_node_declared_tells(slots[at].node, decl, readers, writers, skip);
        assert(after.slots[at].name == decl.key());
        assert(is_held(after.slots, decl, readers, writers, skip));
        assert forall|i: int| 0 <= i < st.slots.len() implies #[trigger] slots[i]
            == st.slots[i] by {}
        assert forall|d: NodeDeclView| #[trigger]
            is_held(st.slots, d, readers, writers, skip) implies is_held(
            after.slots,
            d,
            readers,
            writers,
            skip,
        ) by {
            let i = choose|i: int|
                0 <= i < st.slots.len() && (#[trigger] st.slots[i]).name == d.key()
                    && holds_declared(st.slots[i].node, d, readers, writers, skip);
            assert(slots[i] == st.slots[i]);
            if i == at {
                lemma_holds_declared_grows(slots[at].node, node, d, readers, writers, skip);
            }
            assert(after.slots[i].name == d.key());
        }
        assert forall|name: Seq<char>| found(st.slots, name) implies #[trigger] found(
            after.slots,
            name,
        ) by {
            let i = choose|i: int| 0 <= i < st.slots.len() && (#[trigger] st.slots[i]).key() == name;
            assert(slots[i] == st.slots[i]);
            assert(after.slots[i].key() == name);
        }
    }
}

proof fn lemma_declaring_all_holds(
    st: Declaring,
    participant: Gid,
    decls: Seq<NodeDeclView>,
    readers: Seq<EntityView>,
    writers: Seq<EntityView>,
    skip: Set<Gid>,
    n: nat,
    d: int,
)
    requires
        declaring_wf(participant, st),
        !st.stopped,
        0 <= d < n <= decls.len(),
        forall|j: int|
            0 <= j <= d ==> found(st.slots, (#[trigger] decls[j]).key())
                || crate::key_expr::field_fits(
                crate::admin_keys::node_id(participant, decls[j].key()),
            ),
    ensures
        is_held(
            declaring_all(st, participant, decls, readers, writers, skip, n).slots,
            decls[d],
            readers,
            writers,
            skip,
        ),
    decreases n,
{
    let m = (n - 1) as nat;
    let mid = declaring_all(st, participant, decls, readers, writers, skip, m);
    let _ = lemma_so_far(participant, st, decls, readers, writers, skip, m);
    lemma_declaring_holds(mid, participant, decls[m as int], readers, writers, skip);
    if d < m {
        lemma_declaring_all_holds(st, participant, decls, readers, writers, skip, m, d);
    } else {
        lemma_not_stopped(st, participant, decls, readers, writers, skip, n);
    }
}

proof fn lemma_not_stopped(
    st: Declaring,
    participant: Gid,
    decls: Seq<NodeDeclView>,
    readers: Seq<EntityView>,
    writers: Seq<EntityView>,
    skip: Set<Gid>,
    n: nat,
)
    requires
        declaring_wf(participant, st),
        !st.stopped,
        n <= decls.len(),
        forall|j: int|
            0 <= j < n ==> found(st.slots, (#[trigger] decls[j]).key())
                || crate::key_expr::field_fits(
                crate::admin_keys::node_id(participant, decls[j].key()),
            ),
    ensures
        !declaring_all(st, participant, decls, readers, writers, skip, n).stopped,
        forall|name: Seq<char>|
            found(st.slots, name) ==> #[trigger] found(
                declaring_all(st, participant, decls, readers, writers, skip, n).slots,
                name,
            ),
    decreases n,
{
    if n > 0 {
        let m = (n - 1) as nat;
        lemma_not_stopped(st, participant, decls, readers, writers, skip, m);
        let mid = declaring_all(st, participant, decls, readers, writers, skip, m);
        let _ = lemma_so_far(participant, st, decls, readers, writers, skip, m);
        let decl = decls[m as int];
        lemma_declaring_holds(mid, participant, decl, readers, writers, skip);
        assert(found(st.slots, decl.key()) ==> found(mid.slots, decl.key()));
        assert forall|name: Seq<char>| found(st.slots, name) implies #[trigger] found(
            declaring_all(st, participant, decls, readers, writers, skip, n).slots,
            name,
        ) by {
            assert(found(mid.slots, name));
        }
    }
}

/// Whether the node is there, or its name can stand in a key expression.
pub open spec fn can_be_there(
    nodes: Seq<ParticipantNodesView>,
    participant: Gid,
    node: Seq<char>,
) -> bool {
    node_at(nodes, participant, node) is Some || crate::key_expr::field_fits(
        crate::admin_keys::node_id(participant, node),
    )
}

/// A declared node is there afterwards, with all that it declares: a Writer (or a
/// Reader) that DDS has reported is one of its endpoints, the others are waited
/// for, and those that an orphan node owns are passed over. This holds up to the
/// first node whose name cannot stand in a key expression.
pub proof fn law_declaration_attaches(v: EntitiesView, info: ParticipantDeclView, d: int)
    requires
        v.wf(),
        0 <= d < info.nodes.len(),
        forall|j: int|
            0 <= j <= d ==> can_be_there(v.nodes, info.gid, (#[trigger] info.nodes[j]).key()),
    ensures
        node_at(
            v.participant_declared(info).0.nodes,
            info.gid,
            info.nodes[d].key(),
        ) matches Some(node) && holds_declared(
            node,
            info.nodes[d],
            v.readers,
            v.writers,
            orphan_owned(v.nodes),
        ),
{
    let g = info.gid;
    let p = lemma_declaration(v, info);
    lemma_parted(p.slots, info.nodes, p.slots.len());
    let st = Declaring {
        slots: p.stay,
        admin: nodes_gone(p.gone, v.admin, p.gone.len()).0,
        events: p.ends,
        stopped: false,
    };
    assert forall|j: int| 0 <= j <= d implies found(st.slots, (#[trigger] info.nodes[j]).key())
        || crate::key_expr::field_fits(
        crate::admin_keys::node_id(g, info.nodes[j].key()),
    ) by {
        let name = info.nodes[j].key();
        assert(can_be_there(v.nodes, g, name));
        if node_at(v.nodes, g, name) is Some {
            lemma_found(p.slots, name);
            let i = place(p.slots, name);
            assert(found(info.nodes, name));
            assert(stays(p.slots[i], info.nodes));
            assert(p.stay.contains(p.slots[i]));
            let y = choose|y: int| 0 <= y < p.stay.len() && p.stay[y] == p.slots[i];
            assert(p.stay[y].key() == name);
        }
    }
    lemma_declaring_all_holds(
        st,
        g,
        info.nodes,
        v.readers,
        v.writers,
        p.skip,
        info.nodes.len(),
        d,
    );
    let i = choose|i: int|
        0 <= i < p.grown.len() && (#[trigger] p.grown[i]).name == info.nodes[d].key()
            && holds_declared(p.grown[i].node, info.nodes[d], v.readers, v.writers, p.skip);
    lemma_place(p.grown, i);
}

/// Whether some declaration of the node declares the endpoint.
pub open spec fn declared_by(
    info: ParticipantDeclView,
    node: Seq<char>,
    ep: EndpointView,
    v: EntitiesView,
) -> bool {
    exists|d: int|
        0 <= d < info.nodes.len() && (#[trigger] info.nodes[d]).key() == node && is_declared(
            ep,
            info.nodes[d],
            v.readers,
            v.writers,
            orphan_owned(v.nodes),
        )
}

/// A declaration attaches nothing else: a node keeps the endpoints that it had, in
/// order, and those behind them are declared. A node that was not there is
/// declared.
pub proof fn law_declaration_attaches_nothing_else(
    v: EntitiesView,
    info: ParticipantDeclView,
    node: Seq<char>,
)
    requires
        v.wf(),
    ensures
        ({
            let after = v.participant_declared(info).0;
            node_at(after.nodes, info.gid, node) matches Some(nd) ==> {
                &&& endpoints_at(v.nodes, info.gid, node).is_prefix_of(nd.endpoints)
                &&& forall|i: int|
                    endpoints_at(v.nodes, info.gid, node).len() <= i < nd.endpoints.len()
                        ==> declared_by(info, node, #[trigger] nd.endpoints[i], v)
                &&& node_at(v.nodes, info.gid, node) is None ==> named_before(
                    info.nodes,
                    info.nodes.len(),
                    node,
                )
            }
        }),
{
    let after = v.participant_declared(info).0;
    let p = lemma_declaration(v, info);
    lemma_parted(p.slots, info.nodes, p.slots.len());
    assert(p.slots.take(p.slots.len() as int) =~= p.slots);
    if found(p.grown, node) {
        lemma_found(p.grown, node);
        let i = place(p.grown, node);
        let nd = p.grown[i].node;
        let before = endpoints_at(v.nodes, info.gid, node);
        if i < p.stay.len() {
            assert(p.grown[i].name == p.stay[i].name);
            assert(p.slots.contains(p.stay[i]));
            let j = choose|j: int| 0 <= j < p.slots.len() && p.slots[j] == p.stay[i];
            lemma_place(p.slots, j);
        } else {
            assert(named_before(info.nodes, info.nodes.len(), p.grown[i].name));
            if found(p.slots, node) {
                let j = place(p.slots, node);
                lemma_found(p.slots, node);
                assert(found(info.nodes, node));
                assert(stays(p.slots[j], info.nodes));
                assert(p.stay.contains(p.slots[j]));
                let y = choose|y: int| 0 <= y < p.stay.len() && p.stay[y] == p.slots[j];
                assert(p.grown[y].name == p.stay[y].name);
                lemma_place(p.grown, y);
            }
            assert(before =~= Seq::empty());
        }
        assert(before == had(p.stay, i));
        assert forall|e: int| before.len() <= e < nd.endpoints.len() implies declared_by(
            info,
            node,
            #[trigger] nd.endpoints[e],
            v,
        ) by {
            assert(declares(
                info.nodes,
                info.nodes.len(),
                node,
                p.grown[i].node.endpoints[e],
                v.readers,
                v.writers,
                p.skip,
            ));
            let d = choose|d: int|
                0 <= d < info.nodes.len() && (#[trigger] info.nodes[d]).key() == node
                    && is_declared(nd.endpoints[e], info.nodes[d], v.readers, v.writers, p.skip);
            assert(info.nodes[d].key() == node);
        }
    }
}

/// A declaration is kept as the last one of its participant. The other
/// participants, with their nodes and declarations, and what DDS has reported stay
/// as they were.
pub proof fn law_declaration_is_kept(v: EntitiesView, info: ParticipantDeclView)
    requires
        v.wf(),
    ensures
        ({
            let after = v.participant_declared(info).0;
            &&& lookup(after.declared, info.gid) == Some(info)
            &&& forall|g: Gid|
                g != info.gid ==> #[trigger] lookup(after.declared, g) == lookup(v.declared, g)
            &&& forall|g: Gid|
                g != info.gid ==> #[trigger] lookup(after.nodes, g) == lookup(v.nodes, g)
            &&& after.participants == v.participants
            &&& after.writers == v.writers
            &&& after.readers == v.readers
        }),
{
    let _ = lemma_declaration(v, info);
    crate::table::lemma_stored(v.declared, info);
}

/// Behind the first node whose name cannot stand in a key expression nothing is
/// declared any more: a node that was not there, and is not declared before, is not
/// there afterwards.
pub proof fn law_declaration_stops(
    v: EntitiesView,
    info: ParticipantDeclView,
    d: int,
    node: Seq<char>,
)
    requires
        v.wf(),
        0 <= d < info.nodes.len(),
        forall|j: int|
            0 <= j < d ==> can_be_there(v.nodes, info.gid, (#[trigger] info.nodes[j]).key()),
        !can_be_there(v.nodes, info.gid, info.nodes[d].key()),
        forall|j: int| 0 <= j < d ==> (#[trigger] info.nodes[j]).key() != info.nodes[d].key(),
        node_at(v.nodes, info.gid, node) is None,
        forall|j: int| 0 <= j < d ==> (#[trigger] info.nodes[j]).key() != node,
    ensures
        node_at(v.participant_declared(info).0.nodes, info.gid, node) is None,
{
    let g = info.gid;
    let p = lemma_declaration(v, info);
    lemma_parted(p.slots, info.nodes, p.slots.len());
    assert(p.slots.take(p.slots.len() as int) =~= p.slots);
    let st = Declaring {
        slots: p.stay,
        admin: nodes_gone(p.gone, v.admin, p.gone.len()).0,
        events: p.ends,
        stopped: false,
    };
    let m = d as nat;
    let decls = info.nodes;
    let mid = declaring_all(st, g, decls, v.readers, v.writers, p.skip, m);
    let _ = lemma_so_far(g, st, decls, v.readers, v.writers, p.skip, m);
    let bad = decls[d].key();
    if found(mid.slots, bad) {
        let i = place(mid.slots, bad);
        lemma_found(mid.slots, bad);
        if i < p.stay.len() {
            assert(mid.slots[i].name == p.stay[i].name);
            assert(p.slots.contains(p.stay[i]));
            let j = choose|j: int| 0 <= j < p.slots.len() && p.slots[j] == p.stay[i];
            lemma_place(p.slots, j);
            assert(node_at(v.nodes, g, bad) is Some);
        } else {
            assert(named_before(decls, m, mid.slots[i].name));
        }
        assert(false);
    }
    assert(!can_declare(mid.slots, g, decls[d]));
    lemma_stopped(st, g, decls, v.readers, v.writers, p.skip, m, decls.len());
    assert(p.grown == mid.slots);
    if found(p.grown, node) {
        let i = place(p.grown, node);
        lemma_found(p.grown, node);
        if i < p.stay.len() {
            assert(mid.slots[i].name == p.stay[i].name);
            assert(p.slots.contains(p.stay[i]));
            let j = choose|j: int| 0 <= j < p.slots.len() && p.slots[j] == p.stay[i];
            lemma_place(p.slots, j);
            assert(node_at(v.nodes, g, node) is Some);
        } else {
            assert(named_before(decls, m, mid.slots[i].name));
        }
        assert(false);
    }
}

proof fn lemma_stopped(
    st: Declaring,
    participant: Gid,
    decls: Seq<NodeDeclView>,
    readers: Seq<EntityView>,
    writers: Seq<EntityView>,
    skip: Set<Gid>,
    m: nat,
    n: nat,
)
    requires
        m < n <= decls.len(),
        !can_declare(
            declaring_all(st, participant, decls, readers, writers, skip, m).slots,
            participant,
            decls[m as int],
        ),
    ensures
        declaring_all(st, participant, decls, readers, writers, skip, n).slots == declaring_all(
            st,
            participant,
            decls,
            readers,
            writers,
            skip,
            m,
        ).slots,
        declaring_all(st, participant, decls, readers, writers, skip, n).stopped,
    decreases n,
{
    if n > m + 1 {
        lemma_stopped(st, participant, decls, readers, writers, skip, m, (n - 1) as nat);
    }
}

/// The admin space changes where declared nodes are added, and there alone.
proof fn lemma_declaring_admin(
    st: Declaring,
    participant: Gid,
    decls: Seq<NodeDeclView>,
    readers: Seq<EntityView>,
    writers: Seq<EntityView>,
    skip: Set<Gid>,
    n: nat,
)
    requires
        declaring_wf(participant, st),
        !st.stopped,
        n <= decls.len(),
    ensures
        forall|k: Seq<char>|
            (forall|d: int|
                0 <= d < n ==> k != crate::admin_keys::node_key(
                    participant,
                    (#[trigger] decls[d]).key(),
                )) ==> #[trigger] lookup(
                declaring_all(st, participant, decls, readers, writers, skip, n).admin,
                k,
            ) == lookup(st.admin, k),
    decreases n,
{
    if n > 0 {
        let m = (n - 1) as nat;
        lemma_declaring_admin(st, participant, decls, readers, writers, skip, m);
        let _ = lemma_so_far(participant, st, decls, readers, writers, skip, m);
        let mid = declaring_all(st, participant, decls, readers, writers, skip, m);
        let after = declaring_all(st, participant, decls, readers, writers, skip, n);
        let decl = decls[m as int];
        let entry = crate::discovery_model::node_entry(participant, decl.key());
        crate::table::lemma_stored(mid.admin, entry);
        assert forall|k: Seq<char>|
            (forall|d: int|
                0 <= d < n ==> k != crate::admin_keys::node_key(
                    participant,
                    (#[trigger] decls[d]).key(),
                )) implies #[trigger] lookup(after.admin, k) == lookup(st.admin, k) by {
            assert(k != crate::admin_keys::node_key(participant, decls[m as int].key()));
            assert(lookup(mid.admin, k) == lookup(st.admin, k));
        }
    }
}

/// A node that is no longer declared is no longer shown.
pub proof fn law_undeclared_node_is_not_shown(
    v: EntitiesView,
    info: ParticipantDeclView,
    node: Seq<char>,
)
    requires
        v.wf(),
        node != ORPHAN_NODE_NAME@,
        forall|d: int| 0 <= d < info.nodes.len() ==> (#[trigger] info.nodes[d]).key() != node,
        node_at(v.nodes, info.gid, node) is Some,
    ensures
        lookup(
            v.participant_declared(info).0.admin,
            crate::admin_keys::node_key(info.gid, node),
        ) is None,
{
    let g = info.gid;
    let p = lemma_declaration(v, info);
    lemma_parted(p.slots, info.nodes, p.slots.len());
    let key = crate::admin_keys::node_key(g, node);
    let admin = nodes_gone(p.gone, v.admin, p.gone.len()).0;
    let st = Declaring { slots: p.stay, admin, events: p.ends, stopped: false };
    lemma_declaring_admin(st, g, info.nodes, v.readers, v.writers, p.skip, info.nodes.len());
    assert forall|d: int| 0 <= d < info.nodes.len() implies key != crate::admin_keys::node_key(
        g,
        (#[trigger] info.nodes[d]).key(),
    ) by {
        if key == crate::admin_keys::node_key(g, info.nodes[d].key()) {
            crate::admin_keys::law_node_key_injective(g, node, g, info.nodes[d].key());
        }
    }
    let j = place(p.slots, node);
    lemma_found(p.slots, node);
    assert(slot_wf(g, p.slots[j]));
    assert(!stays(p.slots[j], info.nodes));
    assert(p.gone.contains(p.slots[j]));
    let s = choose|s: int| 0 <= s < p.gone.len() && p.gone[s] == p.slots[j];
    crate::discovery_reports::lemma_gone_unlisted(p.gone, v.admin, p.gone.len());
    assert(p.gone[s].node.participant == g && p.gone[s].node.fullname() == node);
    assert(lookup(admin, key) is None);
}

/// The entries of the admin space that are not those of nodes of the participant
/// stay as they were when it declares its nodes.
pub proof fn law_declaration_leaves_other_entries(
    v: EntitiesView,
    info: ParticipantDeclView,
    key: Seq<char>,
)
    requires
        v.wf(),
        forall|node: Seq<char>| key != #[trigger] crate::admin_keys::node_key(info.gid, node),
    ensures
        lookup(v.participant_declared(info).0.admin, key) == lookup(v.admin, key),
{
    let g = info.gid;
    let p = lemma_declaration(v, info);
    lemma_parted(p.slots, info.nodes, p.slots.len());
    assert(p.slots.take(p.slots.len() as int) =~= p.slots);
    let admin = nodes_gone(p.gone, v.admin, p.gone.len()).0;
    let st = Declaring { slots: p.stay, admin, events: p.ends, stopped: false };
    lemma_declaring_admin(st, g, info.nodes, v.readers, v.writers, p.skip, info.nodes.len());
    crate::discovery_reports::lemma_gone_unlisted(p.gone, v.admin, p.gone.len());
    assert forall|d: int| 0 <= d < info.nodes.len() implies key != crate::admin_keys::node_key(
        g,
        (#[trigger] info.nodes[d]).key(),
    ) by {}
    if crate::discovery_wf::is_key_among(p.gone, key, p.gone.len()) {
        let s = choose|s: int|
            0 <= s < p.gone.len() && key == crate::admin_keys::node_key(
                (#[trigger] p.gone[s]).node.participant,
                p.gone[s].node.fullname(),
            );
        assert(p.slots.contains(p.gone[s]));
        let j = choose|j: int| 0 <= j < p.slots.len() && p.slots[j] == p.gone[s];
        assert(slot_wf(g, p.slots[j]));
        assert(false);
    }
}

/// Whether some participant's orphan node publishes messages by the Writer.
pub open spec fn is_orphans(nodes: Seq<ParticipantNodesView>, gid: Gid) -> bool {
    exists|p: int, s: int, i: int|
        #![trigger nodes[p].slots[s].node.endpoints[i]]
        0 <= p < nodes.len() && 0 <= s < nodes[p].slots.len() && nodes[p].slots[s].name
            == ORPHAN_NODE_NAME@ && 0 <= i < nodes[p].slots[s].node.endpoints.len()
            && nodes[p].slots[s].node.endpoints[i].gid == gid
            && nodes[p].slots[s].node.endpoints[i].kind == InterfaceKind::MsgPub
}

/// The Writers that a declaration passes over are those that orphan nodes publish by.
pub proof fn law_orphans_are_passed_over(nodes: Seq<ParticipantNodesView>, gid: Gid)
    ensures
        orphan_owned(nodes).contains(gid) == is_orphans(nodes, gid),
{
    if orphan_owned(nodes).contains(gid) {
        let p = choose|p: int|
            0 <= p < nodes.len() && crate::discovery_model::orphan_owns_in(
                (#[trigger] nodes[p]).slots,
                gid,
            );
        let slots = nodes[p].slots;
        let s = choose|s: int|
            0 <= s < slots.len() && (#[trigger] slots[s]).name == ORPHAN_NODE_NAME@
                && crate::node_info::owns_msg_writer(slots[s].node, gid);
        let eps = slots[s].node.endpoints;
        let i = choose|i: int|
            0 <= i < eps.len() && (#[trigger] eps[i]).kind == InterfaceKind::MsgPub && eps[i].gid
                == gid;
        assert(nodes[p].slots[s].node.endpoints[i].gid == gid);
    }
    if is_orphans(nodes, gid) {
        let (p, s, i) = choose|p: int, s: int, i: int|
            #![trigger nodes[p].slots[s].node.endpoints[i]]
            0 <= p < nodes.len() && 0 <= s < nodes[p].slots.len() && nodes[p].slots[s].name
                == ORPHAN_NODE_NAME@ && 0 <= i < nodes[p].slots[s].node.endpoints.len()
                && nodes[p].slots[s].node.endpoints[i].gid == gid
                && nodes[p].slots[s].node.endpoints[i].kind == InterfaceKind::MsgPub;
        let slot = nodes[p].slots[s];
        assert(slot.node.endpoints[i].kind == InterfaceKind::MsgPub);
        assert(crate::node_info::owns_msg_writer(slot.node, gid));
        assert(crate::discovery_model::orphan_owns_in(nodes[p].slots, gid));
        assert(crate::discovery_model::orphan_owns(nodes, gid));
    }
}

/// What a node waits for, nothing if it is not there.
pub open spec fn waiting_at(
    nodes: Seq<ParticipantNodesView>,
    participant: Gid,
    node: Seq<char>,
    writer: bool,
) -> Seq<Gid> {
    match node_at(nodes, participant, node) {
        Some(node) => node.undiscovered(writer),
        None => Seq::empty(),
    }
}

/// A declaration lets a node wait for nothing but Writers (or Readers) that it
/// declares, that DDS has not reported, and that no orphan node owns. It waits on for
/// all that it waited for.
pub proof fn law_declaration_waits_for_nothing_else(
    v: EntitiesView,
    info: ParticipantDeclView,
    node: Seq<char>,
    writer: bool,
)
    requires
        v.wf(),
        node_at(v.participant_declared(info).0.nodes, info.gid, node) is Some,
    ensures
        ({
            let before = waiting_at(v.nodes, info.gid, node, writer);
            let after = waiting_at(v.participant_declared(info).0.nodes, info.gid, node, writer);
            &&& before.is_prefix_of(after)
            &&& forall|j: int|
                before.len() <= j < after.len() ==> names_entity(
                    info.nodes,
                    info.nodes.len(),
                    node,
                    #[trigger] after[j],
                    writer,
                ) && !found(v.entities(writer), after[j]) && (writer ==> !is_orphans(
                    v.nodes,
                    after[j],
                ))
        }),
{
    let p = lemma_declaration(v, info);
    lemma_parted(p.slots, info.nodes, p.slots.len());
    assert(p.slots.take(p.slots.len() as int) =~= p.slots);
    lemma_found(p.grown, node);
    let i = place(p.grown, node);
    let nd = p.grown[i].node;
    let before = waiting_at(v.nodes, info.gid, node, writer);
    if i < p.stay.len() {
        assert(p.grown[i].name == p.stay[i].name);
        assert(p.slots.contains(p.stay[i]));
        let j = choose|j: int| 0 <= j < p.slots.len() && p.slots[j] == p.stay[i];
        lemma_place(p.slots, j);
        assert(before == p.stay[i].node.undiscovered(writer));
    } else {
        assert(named_before(info.nodes, info.nodes.len(), p.grown[i].name));
        if found(p.slots, node) {
            let j = place(p.slots, node);
            lemma_found(p.slots, node);
            assert(found(info.nodes, node));
            assert(stays(p.slots[j], info.nodes));
            assert(p.stay.contains(p.slots[j]));
            let y = choose|y: int| 0 <= y < p.stay.len() && p.stay[y] == p.slots[j];
            assert(p.grown[y].name == p.stay[y].name);
            lemma_place(p.grown, y);
        }
        assert(before =~= Seq::empty());
    }
    assert(before == awaited_at(p.stay, i, writer));
    let after = nd.undiscovered(writer);
    assert forall|j: int| before.len() <= j < after.len() implies names_entity(
        info.nodes,
        info.nodes.len(),
        node,
        #[trigger] after[j],
        writer,
    ) && !found(v.entities(writer), after[j]) && (writer ==> !is_orphans(v.nodes, after[j])) by {
        assert(is_awaited(
            info.nodes,
            info.nodes.len(),
            node,
            p.grown[i].node.undiscovered(writer)[j],
            writer,
            v.readers,
            v.writers,
            p.skip,
        ));
        law_orphans_are_passed_over(v.nodes, after[j]);
    }
}

} // verus!
