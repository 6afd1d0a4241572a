//! What the reports of DDS come to: who waits for an entity gets it, whoever had
//! it loses it, and what that makes or breaks is told.
use crate::admin_keys::{entity_key, node_key, participant_key};
use crate::dds::{EntityView, ParticipantView};
use crate::discovery_model::{
    awaiting_slot, entity_entry, node_at, nodes_awaited, nodes_gone, nodes_released,
    participant_entry, slots_awaited, slots_released, slots_wf, slot_wf, EntitiesView, EntityRefView,
    ParticipantNodesView, SlotView, ORPHAN_NODE_NAME,
};
use crate::discovery_told::{
    appeared, endpoints_at, grown, is_news, law_endpoint_is_told, lemma_complete_grows, one_event,
    tells, tells_growth, typed,
};
use crate::discovery_wf::{lemma_awaiting_slot, lemma_found, lemma_without};
use crate::events::EventView;
use crate::gid::Gid;
use crate::naming::{role_of, InterfaceKind, Part, RoleView};
use crate::node_info::{
    awaited, complete, endpoints_without, first_lost, is_endpoint, needed, part_there, registered,
    released, serves, updated, EndpointView, NodeView,
};
use crate::table::{
    found, lemma_place, lemma_removed, lemma_stored, lookup, place, removed, stored, unique, HasKey,
};
use vstd::prelude::*;

verus! {

// ---------------------------------------------------------------------------
// A Writer or a Reader that is reported
// ---------------------------------------------------------------------------

/// Whether there is a node at the place.
pub open spec fn there(nodes: Seq<ParticipantNodesView>, p: int, s: int) -> bool {
    0 <= p < nodes.len() && 0 <= s < nodes[p].slots.len()
}

/// Whether the node at the place waits for the Writer (or the Reader).
pub open spec fn waits(
    nodes: Seq<ParticipantNodesView>,
    p: int,
    s: int,
    gid: Gid,
    writer: bool,
) -> bool {
    there(nodes, p, s) && nodes[p].slots[s].node.undiscovered(writer).contains(gid)
}

/// The node has got the Writer (or the Reader) that it waited for: it waits for it
/// once less, and has it as an endpoint in its role behind those that it had.
pub open spec fn got(before: NodeView, after: NodeView, e: EntityView, writer: bool) -> bool {
    &&& grown(before, after)
    &&& after.undiscovered(!writer) == before.undiscovered(!writer)
    &&& after.undiscovered(writer).len() == before.undiscovered(writer).len() - 1
    &&& before.undiscovered(writer).no_duplicates() ==> !after.undiscovered(writer).contains(e.key)
    &&& forall|g: Gid|
        g != e.key ==> #[trigger] after.undiscovered(writer).contains(g) == before.undiscovered(
            writer,
        ).contains(g)
    &&& match role_of(e.topic_name, writer) {
        Some(role) => registered(after.endpoints, role, e.key) && forall|i: int|
            before.endpoints.len() <= i < after.endpoints.len() ==> (#[trigger] after.endpoints[i])
                == (EndpointView {
                kind: role.kind,
                part: role.part,
                name: role.name,
                dds_type: e.dds_type,
                writer,
                gid: e.key,
            }),
        None => after.endpoints == before.endpoints,
    }
}

/// The nodes are the same ones, in the same order.
pub open spec fn same_places(
    a: Seq<ParticipantNodesView>,
    b: Seq<ParticipantNodesView>,
) -> bool {
    &&& a.len() == b.len()
    &&& forall|p: int|
        0 <= p < a.len() ==> (#[trigger] b[p]).gid == a[p].gid && b[p].slots.len()
            == a[p].slots.len()
    &&& forall|p: int, s: int|
        #![trigger b[p].slots[s]]
        there(a, p, s) ==> b[p].slots[s].name == a[p].slots[s].name
}

proof fn lemma_remove_value(s: Seq<Gid>, gid: Gid)
    requires
        s.contains(gid),
    ensures
        s.remove_value(gid).len() == s.len() - 1,
        s.no_duplicates() ==> !s.remove_value(gid).contains(gid),
        forall|g: Gid| g != gid ==> #[trigger] s.remove_value(gid).contains(g) == s.contains(g),
{
    let t = s.remove_value(gid);
    s.index_of_first_ensures(gid);
    let x = s.index_of_first(gid)->0;
    assert(t == s.remove(x));
    if s.no_duplicates() && t.contains(gid) {
        let j = choose|j: int| 0 <= j < t.len() && t[j] == gid;
        if j < x {
            assert(s[j] == s[x]);
        } else {
            assert(s[j + 1] == s[x]);
        }
    }
    assert forall|g: Gid| g != gid implies #[trigger] t.contains(g) == s.contains(g) by {
        if s.contains(g) {
            let j = choose|j: int| 0 <= j < s.len() && s[j] == g;
            if j < x {
                assert(t[j] == g);
            } else {
                assert(t[j - 1] == g);
            }
        }
        if t.contains(g) {
            let j = choose|j: int| 0 <= j < t.len() && t[j] == g;
            if j < x {
                assert(s[j] == g);
            } else {
                assert(s[j + 1] == g);
            }
        }
    }
}

proof fn lemma_awaited_got(node: NodeView, e: EntityView, writer: bool)
    requires
        node.undiscovered(writer).contains(e.key),
    ensures
        ({
            let (after, event) = awaited(node, e, writer);
            got(node, after, e, writer) && tells_growth(node, after, one_event(event))
        }),
{
    let mid = node.with_undiscovered(
        writer,
        node.undiscovered(writer).remove_value(e.key),
    );
    lemma_remove_value(node.undiscovered(writer), e.key);
    law_endpoint_is_told(mid, e, writer);
    let (after, event) = updated(mid, e, writer);
    assert(after.undiscovered(writer) == mid.undiscovered(writer));
    assert(after.undiscovered(!writer) == mid.undiscovered(!writer));
    assert(mid.undiscovered(!writer) == node.undiscovered(!writer));
    assert(mid.endpoints == node.endpoints);
    assert forall|k: int| 0 <= k < one_event(event).len() implies appeared(
        node.endpoints,
        after,
        #[trigger] one_event(event)[k],
    ) by {
        assert(appeared(mid.endpoints, after, one_event(event)[k]));
    }
}

/// The event tells of the interface that became complete on the node.
pub open spec fn told_of(
    event: Option<EventView>,
    node: NodeView,
    kind: InterfaceKind,
    name: Seq<char>,
) -> bool {
    event matches Some(ev) && is_news(ev, true, node, kind, name)
}

/// What holds once the first `n` participants were asked.
spec fn asked(
    before: Seq<ParticipantNodesView>,
    after: Seq<ParticipantNodesView>,
    event: Option<EventView>,
    e: EntityView,
    writer: bool,
    n: nat,
) -> bool {
    &&& same_places(before, after)
    &&& forall|p: int| n <= p < before.len() ==> #[trigger] after[p] == before[p]
    &&& forall|p: int, s: int|
        #![trigger after[p].slots[s]]
        there(before, p, s) ==> after[p].slots[s] == before[p].slots[s] || (waits(
            before,
            p,
            s,
            e.key,
            writer,
        ) && got(before[p].slots[s].node, after[p].slots[s].node, e, writer))
    &&& forall|p: int, s: int|
        p < n && #[trigger] waits(before, p, s, e.key, writer) ==> somebody_got(
            before,
            after,
            e,
            writer,
        ) && (event is None ==> somebody_got_of(before, after, e, writer, p))
    &&& forall|p: int, s: int, t: int|
        #![trigger after[p].slots[s], after[p].slots[t]]
        there(before, p, s) && there(before, p, t) && s != t ==> after[p].slots[s]
            == before[p].slots[s] || after[p].slots[t] == before[p].slots[t]
    &&& forall|p: int, s: int, kind: InterfaceKind, name: Seq<char>|
        there(before, p, s) && #[trigger] complete(after[p].slots[s].node.endpoints, kind, name)
            && !complete(before[p].slots[s].node.endpoints, kind, name) ==> told_of(
            event,
            after[p].slots[s].node,
            kind,
            name,
        )
    &&& event matches Some(ev) ==> appeared_somewhere(before, after, e, writer, ev)
}

/// A node of the participant at `p` has got the entity that it waited for.
pub open spec fn somebody_got_of(
    before: Seq<ParticipantNodesView>,
    after: Seq<ParticipantNodesView>,
    e: EntityView,
    writer: bool,
    p: int,
) -> bool {
    exists|s: int| #[trigger]
        waits(before, p, s, e.key, writer) && got(
            before[p].slots[s].node,
            after[p].slots[s].node,
            e,
            writer,
        )
}

/// A node has got the entity that it waited for.
pub open spec fn somebody_got(
    before: Seq<ParticipantNodesView>,
    after: Seq<ParticipantNodesView>,
    e: EntityView,
    writer: bool,
) -> bool {
    exists|p: int| #[trigger] somebody_got_of(before, after, e, writer, p)
}

/// The event tells what appeared on a node that waited for the entity.
pub open spec fn appeared_somewhere(
    before: Seq<ParticipantNodesView>,
    after: Seq<ParticipantNodesView>,
    e: EntityView,
    writer: bool,
    event: EventView,
) -> bool {
    exists|p: int, s: int| #[trigger]
        waits(before, p, s, e.key, writer) && appeared(
            before[p].slots[s].node.endpoints,
            after[p].slots[s].node,
            event,
        )
}

#[verifier::rlimit(40)]
proof fn lemma_asked(
    nodes: Seq<ParticipantNodesView>,
    e: EntityView,
    writer: bool,
    n: nat,
)
    requires
        n <= nodes.len(),
    ensures
        asked(
            nodes,
            nodes_awaited(nodes, e, writer, n).0,
            nodes_awaited(nodes, e, writer, n).1,
            e,
            writer,
            n,
        ),
    decreases n,
{
    if n > 0 {
        let m = (n - 1) as nat;
        lemma_asked(nodes, e, writer, m);
        let (mid, told) = nodes_awaited(nodes, e, writer, m);
        let (after, event) = nodes_awaited(nodes, e, writer, n);
        let q = m as int;
        if told is Some {
            assert forall|p: int, s: int|
                p < n && #[trigger] waits(nodes, p, s, e.key, writer) implies somebody_got(
                nodes,
                after,
                e,
                writer,
            ) && (event is None ==> somebody_got_of(nodes, after, e, writer, p)) by {
                let ev = told->0;
                let (a, b) = choose|a: int, b: int| #[trigger]
                    waits(nodes, a, b, e.key, writer) && appeared(
                        nodes[a].slots[b].node.endpoints,
                        mid[a].slots[b].node,
                        ev,
                    );
                assert(after[a].slots[b] != nodes[a].slots[b]);
                assert(got(nodes[a].slots[b].node, after[a].slots[b].node, e, writer));
                assert(somebody_got_of(nodes, after, e, writer, a));
            }
        } else {
            let slots = nodes[q].slots;
            assert(mid[q] == nodes[q]);
            let (next, ev) = slots_awaited(slots, e, writer);
            lemma_awaiting_slot(slots, e.key, writer, slots.len());
            assert(event == ev);
            assert(after[q].slots == next);
            assert forall|p: int| 0 <= p < nodes.len() && p != q implies #[trigger] after[p]
                == mid[p] by {}
            match awaiting_slot(slots, e.key, writer, slots.len()) {
                Some(i) => {
                    lemma_awaited_got(slots[i].node, e, writer);
                    let (node, _) = awaited(slots[i].node, e, writer);
                    assert(after[q].slots[i].node == node);
                    assert(waits(nodes, q, i, e.key, writer));
                    assert(got(nodes[q].slots[i].node, after[q].slots[i].node, e, writer));
                    assert(somebody_got_of(nodes, after, e, writer, q));
                    assert forall|s: int| 0 <= s < slots.len() && s != i implies #[trigger] next[s]
                        == slots[s] by {}
                    if let Some(x) = ev {
                        assert(one_event(ev)[0] == x);
                        assert(appeared(slots[i].node.endpoints, node, one_event(ev)[0]));
                        assert(appeared_somewhere(nodes, after, e, writer, x));
                    }
                    assert forall|kind: InterfaceKind, name: Seq<char>| #[trigger]
                        complete(node.endpoints, kind, name) && !complete(
                            slots[i].node.endpoints,
                            kind,
                            name,
                        ) implies told_of(event, node, kind, name) by {
                        assert(tells(one_event(ev), true, node, kind, name));
                    }
                },
                None => {
                    assert(next == slots);
                    assert forall|s: int| !#[trigger] waits(nodes, q, s, e.key, writer) by {
                        if there(nodes, q, s) {
                            assert(!slots[s].node.undiscovered(writer).contains(e.key));
                        }
                    }
                },
            }
            assert forall|p: int, s: int|
                p < n && #[trigger] waits(nodes, p, s, e.key, writer) implies somebody_got(
                nodes,
                after,
                e,
                writer,
            ) && (event is None ==> somebody_got_of(nodes, after, e, writer, p)) by {
                if p < m {
                    assert(somebody_got_of(nodes, mid, e, writer, p));
                    let t = choose|t: int| #[trigger]
                        waits(nodes, p, t, e.key, writer) && got(
                            nodes[p].slots[t].node,
                            mid[p].slots[t].node,
                            e,
                            writer,
                        );
                    assert(after[p] == mid[p]);
                    assert(waits(nodes, p, t, e.key, writer));
                    assert(somebody_got_of(nodes, after, e, writer, p));
                } else {
                    assert(somebody_got_of(nodes, after, e, writer, q));
                }
            }
            assert forall|p: int, s: int, kind: InterfaceKind, name: Seq<char>|
                there(nodes, p, s) && #[trigger] complete(
                    after[p].slots[s].node.endpoints,
                    kind,
                    name,
                ) && !complete(nodes[p].slots[s].node.endpoints, kind, name) implies told_of(
                event,
                after[p].slots[s].node,
                kind,
                name,
            ) by {
                if p != q {
                    assert(complete(mid[p].slots[s].node.endpoints, kind, name));
                    assert(told_of(told, mid[p].slots[s].node, kind, name));
                }
            }
            assert forall|p: int, s: int|
                #![trigger after[p].slots[s]]
                there(nodes, p, s) implies after[p].slots[s] == nodes[p].slots[s] || (waits(
                nodes,
                p,
                s,
                e.key,
                writer,
            ) && got(nodes[p].slots[s].node, after[p].slots[s].node, e, writer)) by {
                if p != q {
                    assert(after[p].slots[s] == mid[p].slots[s]);
                }
            }
            assert forall|p: int, s: int, t: int|
                #![trigger after[p].slots[s], after[p].slots[t]]
                there(nodes, p, s) && there(nodes, p, t) && s != t implies after[p].slots[s]
                == nodes[p].slots[s] || after[p].slots[t] == nodes[p].slots[t] by {
                if p != q {
                    assert(after[p].slots[s] == mid[p].slots[s]);
                    assert(after[p].slots[t] == mid[p].slots[t]);
                }
            }
            assert forall|p: int, s: int|
                #![trigger after[p].slots[s]]
                there(nodes, p, s) implies after[p].slots[s].name == nodes[p].slots[s].name by {
                if p != q {
                    assert(after[p].slots[s] == mid[p].slots[s]);
                }
            }
        }
    }
}

/// A Writer (or a Reader) that DDS reports reaches who waits for it, whichever
/// participant that node belongs to, and one node of a participant at most. If
/// nothing is told, it has reached a node of each participant that has one waiting.
/// A node that did not wait for it stays as it was.
pub proof fn law_report_reaches_who_waits(v: EntitiesView, e: EntityView, writer: bool)
    ensures
        ({
            let (after, event) = v.entity_added(e, writer);
            &&& same_places(v.nodes, after.nodes)
            &&& forall|p: int, s: int| #[trigger]
                waits(v.nodes, p, s, e.key, writer) ==> somebody_got(
                    v.nodes,
                    after.nodes,
                    e,
                    writer,
                ) && (event is None ==> somebody_got_of(v.nodes, after.nodes, e, writer, p))
            &&& forall|p: int, s: int|
                #![trigger after.nodes[p].slots[s]]
                there(v.nodes, p, s) && !waits(v.nodes, p, s, e.key, writer)
                    ==> after.nodes[p].slots[s] == v.nodes[p].slots[s]
            &&& forall|p: int, s: int|
                #![trigger after.nodes[p].slots[s]]
                there(v.nodes, p, s) ==> after.nodes[p].slots[s] == v.nodes[p].slots[s] || got(
                    v.nodes[p].slots[s].node,
                    after.nodes[p].slots[s].node,
                    e,
                    writer,
                )
            &&& forall|p: int, s: int, t: int|
                #![trigger after.nodes[p].slots[s], after.nodes[p].slots[t]]
                there(v.nodes, p, s) && there(v.nodes, p, t) && s != t ==> after.nodes[p].slots[s]
                    == v.nodes[p].slots[s] || after.nodes[p].slots[t] == v.nodes[p].slots[t]
        }),
{
    lemma_asked(v.nodes, e, writer, v.nodes.len());
}

/// Where exactly one node waits for a Writer (or a Reader), it gets it, and the
/// interface that becomes complete by it is told; for a message this is so unless
/// the interface was complete before.
pub proof fn law_waiting_node_is_told(
    v: EntitiesView,
    e: EntityView,
    writer: bool,
    p: int,
    s: int,
)
    requires
        waits(v.nodes, p, s, e.key, writer),
        forall|q: int, t: int| #[trigger]
            waits(v.nodes, q, t, e.key, writer) ==> q == p && t == s,
    ensures
        ({
            let (after, event) = v.entity_added(e, writer);
            let old = v.nodes[p].slots[s].node;
            let new = after.nodes[p].slots[s].node;
            &&& got(old, new, e, writer)
            &&& forall|kind: InterfaceKind, name: Seq<char>| #[trigger]
                complete(new.endpoints, kind, name) && !complete(old.endpoints, kind, name)
                    ==> told_of(event, new, kind, name)
            &&& role_of(e.topic_name, writer) matches Some(role) ==> (role.part == Part::Message
                && !complete(old.endpoints, role.kind, role.name) && (role.kind
                == InterfaceKind::MsgPub || role.kind == InterfaceKind::MsgSub) ==> told_of(
                event,
                new,
                role.kind,
                role.name,
            ))
        }),
{
    lemma_asked(v.nodes, e, writer, v.nodes.len());
    let (after, event) = v.entity_added(e, writer);
    assert(somebody_got(v.nodes, after.nodes, e, writer));
    let q = choose|q: int| #[trigger] somebody_got_of(v.nodes, after.nodes, e, writer, q);
    let t = choose|t: int| #[trigger]
        waits(v.nodes, q, t, e.key, writer) && got(
            v.nodes[q].slots[t].node,
            after.nodes[q].slots[t].node,
            e,
            writer,
        );
    assert(q == p && t == s);
    let new = after.nodes[p].slots[s].node;
    if let Some(role) = role_of(e.topic_name, writer) {
        if role.part == Part::Message && (role.kind == InterfaceKind::MsgPub || role.kind
            == InterfaceKind::MsgSub) {
            assert forall|part: Part| needed(role.kind, part) implies #[trigger]
                part_there(new.endpoints, role.kind, role.name, part) by {
                let i = choose|i: int|
                    0 <= i < new.endpoints.len() && serves(
                        #[trigger] new.endpoints[i],
                        role.kind,
                        role.name,
                        role.part,
                    ) && new.endpoints[i].gid == e.key;
                assert(serves(new.endpoints[i], role.kind, role.name, part));
            }
            assert(complete(new.endpoints, role.kind, role.name));
        }
    }
}

/// A report tells of every interface that it makes complete, on whichever node,
/// and of nothing else.
pub proof fn law_report_tells_what_appears(v: EntitiesView, e: EntityView, writer: bool)
    ensures
        ({
            let (after, event) = v.entity_added(e, writer);
            &&& forall|p: int, s: int, kind: InterfaceKind, name: Seq<char>|
                there(v.nodes, p, s) && #[trigger] complete(
                    after.nodes[p].slots[s].node.endpoints,
                    kind,
                    name,
                ) && !complete(v.nodes[p].slots[s].node.endpoints, kind, name) ==> told_of(
                    event,
                    after.nodes[p].slots[s].node,
                    kind,
                    name,
                )
            &&& event matches Some(ev) ==> appeared_somewhere(v.nodes, after.nodes, e, writer, ev)
        }),
{
    lemma_asked(v.nodes, e, writer, v.nodes.len());
}

// ---------------------------------------------------------------------------
// A Writer or a Reader that is gone
// ---------------------------------------------------------------------------

/// Whether the node has the Writer (or the Reader) as an endpoint.
pub open spec fn has_endpoint(node: NodeView, gid: Gid, writer: bool) -> bool {
    exists|i: int|
        0 <= i < node.endpoints.len() && (#[trigger] node.endpoints[i]).gid == gid
            && node.endpoints[i].writer == writer
}

/// The node has lost the Writer (or the Reader), and is else as it was.
pub open spec fn lost(before: NodeView, after: NodeView, gid: Gid, writer: bool) -> bool {
    &&& after == (NodeView { endpoints: after.endpoints, ..before })
    &&& !has_endpoint(after, gid, writer)
    &&& forall|i: int|
        0 <= i < before.endpoints.len() && !((#[trigger] before.endpoints[i]).gid == gid
            && before.endpoints[i].writer == writer) ==> after.endpoints.contains(
            before.endpoints[i],
        )
    &&& forall|i: int|
        0 <= i < after.endpoints.len() ==> before.endpoints.contains(#[trigger] after.endpoints[i])
    &&& !has_endpoint(before, gid, writer) ==> after == before
}

/// The event tells the end of an interface that was complete, and is not any more.
pub open spec fn broke(before: NodeView, after: NodeView, event: EventView) -> bool {
    &&& is_news(event, false, before, event.kind, event.name)
    &&& complete(before.endpoints, event.kind, event.name)
    &&& !complete(after.endpoints, event.kind, event.name)
}

proof fn lemma_first_lost_typed(node: NodeView, gid: Gid, writer: bool, n: nat)
    requires
        n <= node.endpoints.len(),
    ensures
        ({
            let after = endpoints_without(node.endpoints, gid, writer);
            match first_lost(node, gid, writer, n) {
                Some(event) => is_news(event, false, node, event.kind, event.name) && complete(
                    node.endpoints,
                    event.kind,
                    event.name,
                ) && !complete(after, event.kind, event.name),
                None => forall|i: int|
                    0 <= i < n && is_endpoint(#[trigger] node.endpoints[i], gid, writer)
                        && complete(
                        node.endpoints,
                        node.endpoints[i].kind,
                        node.endpoints[i].name,
                    ) ==> complete(after, node.endpoints[i].kind, node.endpoints[i].name),
            }
        }),
    decreases n,
{
    if n > 0 {
        lemma_first_lost_typed(node, gid, writer, (n - 1) as nat);
        let e = node.endpoints[n - 1];
        assert(typed(node.endpoints, e.kind, e.name, e.dds_type));
    }
}

/// Where an interface breaks, an endpoint of it was lost.
proof fn lemma_broken_by_endpoint(
    endpoints: Seq<EndpointView>,
    gid: Gid,
    writer: bool,
    kind: InterfaceKind,
    name: Seq<char>,
) -> (i: int)
    requires
        complete(endpoints, kind, name),
        !complete(endpoints_without(endpoints, gid, writer), kind, name),
    ensures
        0 <= i < endpoints.len(),
        is_endpoint(endpoints[i], gid, writer),
        endpoints[i].kind == kind,
        endpoints[i].name == name,
{
    let left = endpoints_without(endpoints, gid, writer);
    lemma_without(endpoints, gid, writer);
    let part = choose|part: Part| needed(kind, part) && !#[trigger] part_there(
        left,
        kind,
        name,
        part,
    );
    assert(part_there(endpoints, kind, name, part));
    let i = choose|i: int|
        0 <= i < endpoints.len() && serves(#[trigger] endpoints[i], kind, name, part);
    if !is_endpoint(endpoints[i], gid, writer) {
        assert(left.contains(endpoints[i]));
        let j = choose|j: int| 0 <= j < left.len() && left[j] == endpoints[i];
        assert(serves(left[j], kind, name, part));
        assert(false);
    }
    i
}

/// A node that loses a Writer (or a Reader) keeps all else, and the interface that
/// breaks by it is told.
pub proof fn law_lost_endpoint_is_told(node: NodeView, gid: Gid, writer: bool)
    ensures
        ({
            let (after, event) = released(node, gid, writer);
            &&& lost(node, after, gid, writer)
            &&& event matches Some(ev) ==> broke(node, after, ev)
            &&& forall|kind: InterfaceKind, name: Seq<char>| #[trigger]
                complete(node.endpoints, kind, name) && !complete(after.endpoints, kind, name)
                    ==> event is Some
        }),
{
    let (after, event) = released(node, gid, writer);
    lemma_without(node.endpoints, gid, writer);
    lemma_first_lost_typed(node, gid, writer, node.endpoints.len());
    lemma_without_has_none(node.endpoints, gid, writer);
    assert(!has_endpoint(after, gid, writer));
    assert forall|i: int|
        0 <= i < node.endpoints.len() && !((#[trigger] node.endpoints[i]).gid == gid
            && node.endpoints[i].writer == writer) implies after.endpoints.contains(
        node.endpoints[i],
    ) by {
        assert(!is_endpoint(node.endpoints[i], gid, writer));
    }
    assert forall|kind: InterfaceKind, name: Seq<char>| #[trigger]
        complete(node.endpoints, kind, name) && !complete(
            after.endpoints,
            kind,
            name,
        ) implies event is Some by {
        let i = lemma_broken_by_endpoint(node.endpoints, gid, writer, kind, name);
        assert(is_endpoint(node.endpoints[i], gid, writer));
    }
}

proof fn lemma_without_has_none(endpoints: Seq<EndpointView>, gid: Gid, writer: bool)
    ensures
        forall|i: int|
            0 <= i < endpoints_without(endpoints, gid, writer).len() ==> !is_endpoint(
                #[trigger] endpoints_without(endpoints, gid, writer)[i],
                gid,
                writer,
            ),
    decreases endpoints.len(),
{
    reveal(Seq::filter);
    if endpoints.len() > 0 {
        lemma_without_has_none(endpoints.drop_last(), gid, writer);
        let before = endpoints_without(endpoints.drop_last(), gid, writer);
        let after = endpoints_without(endpoints, gid, writer);
        assert forall|i: int| 0 <= i < after.len() implies !is_endpoint(
            #[trigger] after[i],
            gid,
            writer,
        ) by {
            if i < before.len() {
                assert(after[i] == before[i]);
            }
        }
    }
}

/// What holds of the nodes of a participant once the first `n` were asked to forget
/// the entity.
spec fn forgot(
    before: Seq<SlotView>,
    after: Seq<SlotView>,
    event: Option<EventView>,
    gid: Gid,
    writer: bool,
    n: nat,
) -> bool {
    &&& after.len() == before.len()
    &&& forall|s: int| 0 <= s < before.len() ==> (#[trigger] after[s]).name == before[s].name
    &&& forall|s: int| n <= s < before.len() ==> #[trigger] after[s] == before[s]
    &&& forall|s: int|
        0 <= s < before.len() ==> #[trigger] after[s] == before[s] || lost(
            before[s].node,
            after[s].node,
            gid,
            writer,
        )
    &&& event is None ==> forall|s: int|
        0 <= s < n ==> lost(before[s].node, (#[trigger] after[s]).node, gid, writer)
    &&& event matches Some(ev) ==> broke_among(before, after, gid, writer, ev)
    &&& forall|s: int, kind: InterfaceKind, name: Seq<char>|
        0 <= s < before.len() && #[trigger] complete(before[s].node.endpoints, kind, name)
            && !complete(after[s].node.endpoints, kind, name) ==> (event matches Some(ev) && broke(
            before[s].node,
            after[s].node,
            ev,
        ))
}

/// The event tells what broke on one of the nodes.
pub open spec fn broke_among(
    before: Seq<SlotView>,
    after: Seq<SlotView>,
    gid: Gid,
    writer: bool,
    event: EventView,
) -> bool {
    exists|s: int|
        0 <= s < before.len() && has_endpoint((#[trigger] before[s]).node, gid, writer) && broke(
            before[s].node,
            after[s].node,
            event,
        )
}

proof fn lemma_forgot(slots: Seq<SlotView>, gid: Gid, writer: bool, n: nat)
    requires
        n <= slots.len(),
    ensures
        forgot(
            slots,
            slots_released(slots, gid, writer, n).0,
            slots_released(slots, gid, writer, n).1,
            gid,
            writer,
            n,
        ),
    decreases n,
{
    if n > 0 {
        let m = (n - 1) as nat;
        lemma_forgot(slots, gid, writer, m);
        let (mid, told) = slots_released(slots, gid, writer, m);
        let (after, event) = slots_released(slots, gid, writer, n);
        let q = m as int;
        if told is None {
            assert(mid[q] == slots[q]);
            let node = slots[q].node;
            law_lost_endpoint_is_told(node, gid, writer);
            assert forall|s: int| 0 <= s < slots.len() && s != q implies #[trigger] after[s]
                == mid[s] by {}
            if let Some(ev) = event {
                let i = lemma_broken_by_endpoint(
                    node.endpoints,
                    gid,
                    writer,
                    ev.kind,
                    ev.name,
                );
                assert(node.endpoints[i].gid == gid && node.endpoints[i].writer == writer);
                assert(has_endpoint(slots[q].node, gid, writer));
                assert(broke(slots[q].node, after[q].node, ev));
                assert(broke_among(slots, after, gid, writer, ev));
            }
            assert forall|s: int, kind: InterfaceKind, name: Seq<char>|
                0 <= s < slots.len() && #[trigger] complete(slots[s].node.endpoints, kind, name)
                    && !complete(after[s].node.endpoints, kind, name) implies (event matches Some(
                ev,
            ) && broke(slots[s].node, after[s].node, ev)) by {
                if s != q {
                    assert(after[s] == mid[s]);
                    assert(told is Some);
                } else {
                    assert(complete(node.endpoints, kind, name));
                }
            }
            if event is None {
                assert forall|s: int| 0 <= s < n implies lost(
                    slots[s].node,
                    (#[trigger] after[s]).node,
                    gid,
                    writer,
                ) by {
                    if s != q {
                        assert(after[s] == mid[s]);
                    }
                }
            }
        }
    }
}

/// What holds once the first `n` participants were asked to forget the entity.
spec fn forgotten(
    before: Seq<ParticipantNodesView>,
    after: Seq<ParticipantNodesView>,
    event: Option<EventView>,
    gid: Gid,
    writer: bool,
    n: nat,
) -> bool {
    &&& same_places(before, after)
    &&& forall|p: int| n <= p < before.len() ==> #[trigger] after[p] == before[p]
    &&& forall|p: int, s: int|
        #![trigger after[p].slots[s]]
        there(before, p, s) ==> after[p].slots[s] == before[p].slots[s] || lost(
            before[p].slots[s].node,
            after[p].slots[s].node,
            gid,
            writer,
        )
    &&& event is None ==> forall|p: int, s: int|
        #![trigger after[p].slots[s]]
        p < n && there(before, p, s) ==> lost(
            before[p].slots[s].node,
            after[p].slots[s].node,
            gid,
            writer,
        )
    &&& event matches Some(ev) ==> broke_somewhere(before, after, gid, writer, ev)
    &&& forall|p: int, s: int, kind: InterfaceKind, name: Seq<char>|
        there(before, p, s) && #[trigger] complete(before[p].slots[s].node.endpoints, kind, name)
            && !complete(after[p].slots[s].node.endpoints, kind, name) ==> (event matches Some(ev)
            && broke(before[p].slots[s].node, after[p].slots[s].node, ev))
}

/// The event tells what broke on a node that had the entity.
pub open spec fn broke_somewhere(
    before: Seq<ParticipantNodesView>,
    after: Seq<ParticipantNodesView>,
    gid: Gid,
    writer: bool,
    event: EventView,
) -> bool {
    exists|p: int|
        0 <= p < before.len() && broke_among(
            (#[trigger] before[p]).slots,
            after[p].slots,
            gid,
            writer,
            event,
        )
}

#[verifier::rlimit(30)]
proof fn lemma_forgotten(nodes: Seq<ParticipantNodesView>, gid: Gid, writer: bool, n: nat)
    requires
        n <= nodes.len(),
    ensures
        forgotten(
            nodes,
            nodes_released(nodes, gid, writer, n).0,
            nodes_released(nodes, gid, writer, n).1,
            gid,
            writer,
            n,
        ),
    decreases n,
{
    if n > 0 {
        let m = (n - 1) as nat;
        lemma_forgotten(nodes, gid, writer, m);
        let (mid, told) = nodes_released(nodes, gid, writer, m);
        let (after, event) = nodes_released(nodes, gid, writer, n);
        let q = m as int;
        if told is None {
            assert(mid[q] == nodes[q]);
            let slots = nodes[q].slots;
            lemma_forgot(slots, gid, writer, slots.len());
            let next = slots_released(slots, gid, writer, slots.len()).0;
            assert(after[q].slots == next);
            assert forall|p: int| 0 <= p < nodes.len() && p != q implies #[trigger] after[p]
                == mid[p] by {}
            if let Some(ev) = event {
                assert(broke_among(nodes[q].slots, after[q].slots, gid, writer, ev));
                assert(broke_somewhere(nodes, after, gid, writer, ev));
            }
            assert forall|p: int, s: int|
                #![trigger after[p].slots[s]]
                there(nodes, p, s) implies after[p].slots[s].name == nodes[p].slots[s].name && (
            after[p].slots[s] == nodes[p].slots[s] || lost(
                nodes[p].slots[s].node,
                after[p].slots[s].node,
                gid,
                writer,
            )) by {
                if p != q {
                    assert(after[p].slots[s] == mid[p].slots[s]);
                } else {
                    assert(after[p].slots[s] == next[s]);
                }
            }
            if event is None {
                assert forall|p: int, s: int|
                    #![trigger after[p].slots[s]]
                    p < n && there(nodes, p, s) implies lost(
                    nodes[p].slots[s].node,
                    after[p].slots[s].node,
                    gid,
                    writer,
                ) by {
                    if p != q {
                        assert(after[p].slots[s] == mid[p].slots[s]);
                    } else {
                        assert(after[p].slots[s] == next[s]);
                    }
                }
            }
            assert forall|p: int, s: int, kind: InterfaceKind, name: Seq<char>|
                there(nodes, p, s) && #[trigger] complete(
                    nodes[p].slots[s].node.endpoints,
                    kind,
                    name,
                ) && !complete(after[p].slots[s].node.endpoints, kind, name) implies (
            event matches Some(ev) && broke(
                nodes[p].slots[s].node,
                after[p].slots[s].node,
                ev,
            )) by {
                if p != q {
                    assert(after[p].slots[s] == mid[p].slots[s]);
                    assert(told is Some);
                } else {
                    assert(complete(slots[s].node.endpoints, kind, name));
                }
            }
        }
    }
}

/// A known Writer (or Reader) that is gone is lost by the nodes that had it. What
/// breaks by that, on whichever node, is told: an event comes, and it is about that
/// node. If none comes, no node has the entity any more.
pub proof fn law_removal_tells_what_breaks(v: EntitiesView, gid: Gid, writer: bool)
    requires
        found(v.entities(writer), gid),
    ensures
        ({
            let (after, event) = v.entity_removed(gid, writer);
            &&& same_places(v.nodes, after.nodes)
            &&& forall|p: int, s: int|
                #![trigger after.nodes[p].slots[s]]
                there(v.nodes, p, s) ==> after.nodes[p].slots[s] == v.nodes[p].slots[s] || lost(
                    v.nodes[p].slots[s].node,
                    after.nodes[p].slots[s].node,
                    gid,
                    writer,
                )
            &&& event is None ==> forall|p: int, s: int|
                #![trigger after.nodes[p].slots[s]]
                there(v.nodes, p, s) ==> !has_endpoint(
                    after.nodes[p].slots[s].node,
                    gid,
                    writer,
                )
            &&& event matches Some(ev) ==> broke_somewhere(
                v.nodes,
                after.nodes,
                gid,
                writer,
                ev,
            )
            &&& forall|p: int, s: int, kind: InterfaceKind, name: Seq<char>|
                there(v.nodes, p, s) && #[trigger] complete(
                    v.nodes[p].slots[s].node.endpoints,
                    kind,
                    name,
                ) && !complete(after.nodes[p].slots[s].node.endpoints, kind, name) ==> (
                event matches Some(ev) && broke(
                    v.nodes[p].slots[s].node,
                    after.nodes[p].slots[s].node,
                    ev,
                ))
        }),
{
    lemma_forgotten(v.nodes, gid, writer, v.nodes.len());
}

/// Where one node alone has the Writer (or the Reader), it loses it, and if the
/// entity was the endpoint of one interface only, the end of that interface is told
/// if and only if it breaks.
pub proof fn law_only_owner_is_told(
    v: EntitiesView,
    gid: Gid,
    writer: bool,
    p: int,
    s: int,
    kind: InterfaceKind,
    name: Seq<char>,
)
    requires
        found(v.entities(writer), gid),
        there(v.nodes, p, s),
        forall|q: int, t: int|
            there(v.nodes, q, t) && has_endpoint(
                #[trigger] v.nodes[q].slots[t].node,
                gid,
                writer,
            ) ==> q == p && t == s,
        forall|i: int|
            0 <= i < v.nodes[p].slots[s].node.endpoints.len() && (
            #[trigger] v.nodes[p].slots[s].node.endpoints[i]).gid == gid
                && v.nodes[p].slots[s].node.endpoints[i].writer == writer
                ==> v.nodes[p].slots[s].node.endpoints[i].kind == kind
                && v.nodes[p].slots[s].node.endpoints[i].name == name,
    ensures
        ({
            let (after, event) = v.entity_removed(gid, writer);
            let old = v.nodes[p].slots[s].node;
            let new = after.nodes[p].slots[s].node;
            &&& lost(old, new, gid, writer)
            &&& event is Some == (complete(old.endpoints, kind, name) && !complete(
                new.endpoints,
                kind,
                name,
            ))
            &&& event matches Some(ev) ==> is_news(ev, false, old, kind, name)
        }),
{
    lemma_forgotten(v.nodes, gid, writer, v.nodes.len());
    let (after, event) = v.entity_removed(gid, writer);
    let old = v.nodes[p].slots[s].node;
    let new = after.nodes[p].slots[s].node;
    if let Some(ev) = event {
        let q = choose|q: int|
            0 <= q < v.nodes.len() && broke_among(
                (#[trigger] v.nodes[q]).slots,
                after.nodes[q].slots,
                gid,
                writer,
                ev,
            );
        let t = choose|t: int|
            0 <= t < v.nodes[q].slots.len() && has_endpoint(
                (#[trigger] v.nodes[q].slots[t]).node,
                gid,
                writer,
            ) && broke(v.nodes[q].slots[t].node, after.nodes[q].slots[t].node, ev);
        assert(there(v.nodes, q, t));
        assert(has_endpoint(v.nodes[q].slots[t].node, gid, writer));
        assert(q == p && t == s);
        assert(broke(old, new, ev));
        assert(after.nodes[p].slots[s] != v.nodes[p].slots[s]);
        assert(lost(old, new, gid, writer));
        let i = lemma_broken(old, new, gid, writer, ev.kind, ev.name);
        assert(old.endpoints[i].gid == gid);
    } else {
        assert(lost(old, new, gid, writer));
        if complete(old.endpoints, kind, name) && !complete(new.endpoints, kind, name) {
            assert(complete(v.nodes[p].slots[s].node.endpoints, kind, name));
        }
    }
}

/// Where an interface breaks, an endpoint of it was lost.
proof fn lemma_broken(
    before: NodeView,
    after: NodeView,
    gid: Gid,
    writer: bool,
    kind: InterfaceKind,
    name: Seq<char>,
) -> (i: int)
    requires
        lost(before, after, gid, writer),
        complete(before.endpoints, kind, name),
        !complete(after.endpoints, kind, name),
    ensures
        0 <= i < before.endpoints.len(),
        before.endpoints[i].gid == gid,
        before.endpoints[i].writer == writer,
        before.endpoints[i].kind == kind,
        before.endpoints[i].name == name,
{
    let part = choose|part: Part| needed(kind, part) && !#[trigger] part_there(
        after.endpoints,
        kind,
        name,
        part,
    );
    assert(part_there(before.endpoints, kind, name, part));
    let i = choose|i: int|
        0 <= i < before.endpoints.len() && serves(#[trigger] before.endpoints[i], kind, name, part);
    if !(before.endpoints[i].gid == gid && before.endpoints[i].writer == writer) {
        assert(after.endpoints.contains(before.endpoints[i]));
        let j = choose|j: int|
            0 <= j < after.endpoints.len() && after.endpoints[j] == before.endpoints[i];
        assert(serves(after.endpoints[j], kind, name, part));
        assert(false);
    }
    i
}

// ---------------------------------------------------------------------------
// What is known, and where it is shown
// ---------------------------------------------------------------------------

/// A participant that is reported is known by its identifier and shown under its
/// key. All else stays as it was.
pub proof fn law_participant_is_known(v: EntitiesView, participant: ParticipantView)
    requires
        v.wf(),
    ensures
        ({
            let after = v.participant_added(participant);
            &&& lookup(after.participants, participant.key) == Some(participant)
            &&& forall|g: Gid|
                g != participant.key ==> #[trigger] lookup(after.participants, g) == lookup(
                    v.participants,
                    g,
                )
            &&& lookup(after.admin, participant_key(participant.key)) matches Some(entry)
                && entry.entity == EntityRefView::Participant(participant.key)
            &&& forall|k: Seq<char>|
                k != participant_key(participant.key) ==> #[trigger] lookup(after.admin, k)
                    == lookup(v.admin, k)
            &&& after.writers == v.writers
            &&& after.readers == v.readers
            &&& after.declared == v.declared
            &&& after.nodes == v.nodes
        }),
{
    lemma_stored(v.participants, participant);
    lemma_stored(v.admin, participant_entry(participant.key));
}

/// The Writers (or the Readers) that are known.
pub open spec fn known(v: EntitiesView, writer: bool) -> Seq<EntityView> {
    if writer {
        v.writers
    } else {
        v.readers
    }
}

/// A Writer (or a Reader) that is reported is known by its identifier and shown
/// under its key. The others stay as they were.
pub proof fn law_entity_is_known(v: EntitiesView, e: EntityView, writer: bool)
    requires
        v.wf(),
    ensures
        ({
            let after = v.entity_added(e, writer).0;
            &&& lookup(known(after, writer), e.key) == Some(e)
            &&& forall|g: Gid|
                g != e.key ==> #[trigger] lookup(known(after, writer), g) == lookup(
                    known(v, writer),
                    g,
                )
            &&& known(after, !writer) == known(v, !writer)
            &&& lookup(after.admin, entity_key(e, writer)) matches Some(entry) && entry.entity == (
            if writer {
                EntityRefView::Writer(e.key)
            } else {
                EntityRefView::Reader(e.key)
            })
            &&& forall|k: Seq<char>|
                k != entity_key(e, writer) ==> #[trigger] lookup(after.admin, k) == lookup(
                    v.admin,
                    k,
                )
            &&& after.participants == v.participants
            &&& after.declared == v.declared
        }),
{
    lemma_stored(v.entities(writer), e);
    lemma_stored(v.admin, entity_entry(e, writer));
}

/// A Writer (or a Reader) that is gone is known and shown no more. The others stay
/// as they were, and the end of one that was not known changes nothing.
pub proof fn law_entity_is_forgotten(v: EntitiesView, gid: Gid, writer: bool)
    requires
        v.wf(),
    ensures
        ({
            let (after, event) = v.entity_removed(gid, writer);
            &&& !found(known(after, writer), gid)
            &&& forall|g: Gid|
                g != gid ==> #[trigger] lookup(known(after, writer), g) == lookup(
                    known(v, writer),
                    g,
                )
            &&& known(after, !writer) == known(v, !writer)
            &&& after.participants == v.participants
            &&& after.declared == v.declared
            &&& match lookup(known(v, writer), gid) {
                Some(e) => lookup(after.admin, entity_key(e, writer)) is None && forall|
                    k: Seq<char>,
                |
                    k != entity_key(e, writer) ==> #[trigger] lookup(after.admin, k) == lookup(
                        v.admin,
                        k,
                    ),
                None => after == v && event is None,
            }
        }),
{
    lemma_removed(v.entities(writer), gid);
    if let Some(e) = lookup(v.entities(writer), gid) {
        lemma_removed(v.admin, entity_key(e, writer));
    }
}

/// A participant that is gone is known and shown no more, and neither are its
/// nodes. All else stays as it was.
pub proof fn law_participant_is_forgotten(v: EntitiesView, gid: Gid)
    requires
        v.wf(),
    ensures
        ({
            let after = v.participant_removed(gid).0;
            &&& !found(after.participants, gid)
            &&& forall|g: Gid|
                g != gid ==> #[trigger] lookup(after.participants, g) == lookup(v.participants, g)
            &&& !found(after.nodes, gid)
            &&& forall|g: Gid| g != gid ==> #[trigger] lookup(after.nodes, g) == lookup(v.nodes, g)
            &&& after.writers == v.writers
            &&& after.readers == v.readers
            &&& after.declared == v.declared
            &&& lookup(after.admin, participant_key(gid)) is None
            &&& forall|node: Seq<char>|
                (#[trigger] node_at(v.nodes, gid, node)) matches Some(nd) ==> lookup(
                    after.admin,
                    node_key(gid, nd.fullname()),
                ) is None
            &&& forall|k: Seq<char>|
                k != participant_key(gid) && !shows_node_of(v.nodes, gid, k) ==> #[trigger] lookup(
                    after.admin,
                    k,
                ) == lookup(v.admin, k)
        }),
{
    lemma_removed(v.participants, gid);
    lemma_removed(v.nodes, gid);
    lemma_removed(v.admin, participant_key(gid));
    let admin = removed(v.admin, participant_key(gid));
    let after = v.participant_removed(gid).0;
    if found(v.nodes, gid) {
        let p = place(v.nodes, gid);
        lemma_found(v.nodes, gid);
        let slots = v.nodes[p].slots;
        assert(slots_wf(gid, slots));
        lemma_gone_unlisted(slots, admin, slots.len());
        assert forall|node: Seq<char>| (#[trigger] node_at(v.nodes, gid, node)) is Some implies
            lookup(
            after.admin,
            node_key(gid, node_at(v.nodes, gid, node)->0.fullname()),
        ) is None by {
            let s = place(slots, node);
            lemma_found(slots, node);
            assert(slot_wf(gid, slots[s]));
        }
        assert forall|k: Seq<char>|
            k != participant_key(gid) && !shows_node_of(
                v.nodes,
                gid,
                k,
            ) implies #[trigger] lookup(after.admin, k) == lookup(v.admin, k) by {
            if crate::discovery_wf::is_key_among(slots, k, slots.len()) {
                let s = choose|s: int|
                    0 <= s < slots.len() && k == node_key(
                        (#[trigger] slots[s]).node.participant,
                        slots[s].node.fullname(),
                    );
                lemma_place(slots, s);
                assert(slot_wf(gid, slots[s]));
                assert(node_at(v.nodes, gid, slots[s].name) == Some(slots[s].node));
                assert(is_key_at(v.nodes, gid, slots[s].name, k));
            }
            assert(lookup(after.admin, k) == lookup(admin, k));
        }
        assert(lookup(after.admin, participant_key(gid)) is None) by {
            assert(lookup(admin, participant_key(gid)) is None);
        }
    }
}

/// Whether the key is that of the node.
pub open spec fn is_key_at(
    nodes: Seq<ParticipantNodesView>,
    gid: Gid,
    node: Seq<char>,
    key: Seq<char>,
) -> bool {
    node_at(nodes, gid, node) matches Some(nd) && key == node_key(gid, nd.fullname())
}

/// Whether the key is that of a node of the participant.
pub open spec fn shows_node_of(
    nodes: Seq<ParticipantNodesView>,
    gid: Gid,
    key: Seq<char>,
) -> bool {
    exists|node: Seq<char>| #[trigger] is_key_at(nodes, gid, node, key)
}

/// Nodes that are gone are not shown, and nothing new is.
pub(crate) proof fn lemma_gone_unlisted(
    slots: Seq<SlotView>,
    admin: Seq<crate::discovery_model::AdminView>,
    n: nat,
)
    requires
        unique(admin),
        n <= slots.len(),
    ensures
        unique(nodes_gone(slots, admin, n).0),
        forall|k: Seq<char>|
            lookup(admin, k) is None ==> #[trigger] lookup(nodes_gone(slots, admin, n).0, k)
                is None,
        forall|s: int|
            0 <= s < n ==> lookup(
                nodes_gone(slots, admin, n).0,
                node_key((#[trigger] slots[s]).node.participant, slots[s].node.fullname()),
            ) is None,
        forall|k: Seq<char>|
            !crate::discovery_wf::is_key_among(slots, k, n) ==> #[trigger] lookup(
                nodes_gone(slots, admin, n).0,
                k,
            ) == lookup(admin, k),
    decreases n,
{
    if n > 0 {
        let m = (n - 1) as nat;
        lemma_gone_unlisted(slots, admin, m);
        crate::discovery_wf::lemma_nodes_gone(slots, admin, n);
        let node = slots[m as int].node;
        lemma_removed(nodes_gone(slots, admin, m).0, node_key(node.participant, node.fullname()));
    }
}

} // verus!
