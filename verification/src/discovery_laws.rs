//! What holds of the discovered entities whatever is reported, and in whatever
//! order.
use crate::admin_keys::{entity_key, node_key, participant_key};
use crate::dds::EntityView;
use crate::discovery_model::{
    adopted, adopted_all, attached, awaiting_slot, can_declare, claimed, claimed_in, declaring,
    declaring_all, entity_entry, is_orphan, is_plain_message, leaving, node_at, node_declared,
    nodes_awaited, nodes_gone, nodes_released, orphan_fullname, orphan_owned, orphan_owns,
    orphan_owns_in, orphans, slot_wf, slots_awaited, slots_released, slots_wf, staying, stays,
    with_node, with_orphan_node, with_participant, Declaring, EntitiesView, EntityValueView,
    ParticipantNodesView, SlotView, Sweep, ORPHAN_NODE_NAME,
};
use crate::discovery_wf::{
    declaring_wf, lemma_adopted, lemma_adopted_all, lemma_awaiting_slot, lemma_declaring,
    lemma_found, lemma_full_name_is_no_orphan, lemma_nodes_awaited_same, lemma_nodes_released_same,
    lemma_retired, lemma_with_orphan_node, lemma_with_participant, lemma_without, sweep_wf,
};
use crate::events::EventView;
use crate::gid::Gid;
use crate::naming::{named, role_of, InterfaceKind, Part, RoleView};
use crate::node_info::{
    all_ends, awaited, claims_writer, complete, endpoint_of, endpoints_without, ends, event_about,
    first_lost, interface_before, is_endpoint, needed, new_node, owns_msg_writer, part_there,
    publishers_write, registered, released, serves, updated, EndpointView, NodeView,
};
use crate::ros_discovery::{NodeDeclView, ParticipantDeclView};
use crate::table::{
    found, lemma_place, lemma_removed, lemma_removed_items, lemma_stored, lemma_update_same_key,
    lookup, place, removed, stored, unique, HasKey,
};
use crate::text::{has_part, occurs_at};
use vstd::prelude::*;

verus! {

// ---------------------------------------------------------------------------
// Roles
// ---------------------------------------------------------------------------

/// The Writer of a plain message topic is a publisher.
pub proof fn law_plain_message_is_published(topic: Seq<char>)
    requires
        is_plain_message(topic),
    ensures
        role_of(topic, true) == Some(
            RoleView { kind: InterfaceKind::MsgPub, part: Part::Message, name: topic.skip(2) },
        ),
{
    lemma_no_action_suffix(topic, "/_action/status"@);
    lemma_no_action_suffix(topic, "/_action/feedback"@);
}

proof fn lemma_no_action_suffix(topic: Seq<char>, suffix: Seq<char>)
    requires
        !has_part(topic, "/_action/"@),
        suffix == "/_action/status"@ || suffix == "/_action/feedback"@,
    ensures
        named(topic, suffix) is None,
{
    reveal_strlit("/_action/");
    reveal_strlit("/_action/status");
    reveal_strlit("/_action/feedback");
    if suffix.is_suffix_of(topic) {
        let i = topic.len() - suffix.len();
        assert(topic.subrange(i, topic.len() as int) =~= suffix);
        assert(topic.subrange(i, i + 9) =~= suffix.subrange(0, 9));
        assert(suffix.subrange(0, 9) =~= "/_action/"@);
        assert(occurs_at(topic, "/_action/"@, i));
    }
}

/// A Reader is no publisher.
pub proof fn law_readers_do_not_publish(topic: Seq<char>)
    ensures
        role_of(topic, false) matches Some(role) ==> role.kind != InterfaceKind::MsgPub,
{
}

// ---------------------------------------------------------------------------
// Interfaces
// ---------------------------------------------------------------------------

/// An interface is announced when it becomes complete, and only then.
pub proof fn law_discovery_completes(node: NodeView, e: EntityView, writer: bool)
    ensures
        ({
            let (after, event) = updated(node, e, writer);
            match event {
                Some(event) => event.discovered && event.node == node.fullname() && complete(
                    after.endpoints,
                    event.kind,
                    event.name,
                ) && !complete(node.endpoints, event.kind, event.name),
                None => role_of(e.topic_name, writer) matches Some(role) ==> complete(
                    after.endpoints,
                    role.kind,
                    role.name,
                ) == complete(node.endpoints, role.kind, role.name),
            }
        }),
{
    if let Some(role) = role_of(e.topic_name, writer) {
        if !registered(node.endpoints, role, e.key) {
            let eps = node.endpoints.push(endpoint_of(e, role, writer));
            if complete(node.endpoints, role.kind, role.name) {
                lemma_complete_grows(node.endpoints, eps, role.kind, role.name);
            }
        }
    }
}

proof fn lemma_complete_grows(
    before: Seq<EndpointView>,
    after: Seq<EndpointView>,
    kind: InterfaceKind,
    name: Seq<char>,
)
    requires
        complete(before, kind, name),
        before.len() <= after.len(),
        forall|i: int| 0 <= i < before.len() ==> #[trigger] after[i] == before[i],
    ensures
        complete(after, kind, name),
{
    assert forall|part: Part| needed(kind, part) implies #[trigger]
        part_there(after, kind, name, part) by {
        assert(part_there(before, kind, name, part));
        let i = choose|i: int|
            0 <= i < before.len() && serves(#[trigger] before[i], kind, name, part);
        assert(after[i] == before[i]);
    }
}

/// A Writer (or a Reader) that is declared again changes nothing.
pub proof fn law_declaring_again_changes_nothing(node: NodeView, e: EntityView, writer: bool)
    ensures
        updated(updated(node, e, writer).0, e, writer) == (updated(node, e, writer).0, None::<
            EventView,
        >),
{
    if let Some(role) = role_of(e.topic_name, writer) {
        if !registered(node.endpoints, role, e.key) {
            let ep = endpoint_of(e, role, writer);
            let eps = node.endpoints.push(ep);
            assert(eps[node.endpoints.len() as int] == ep);
            assert(registered(eps, role, e.key));
        }
    }
}

/// The end of an interface is told when it loses a part, and only then.
pub proof fn law_loss_is_told(node: NodeView, gid: Gid, writer: bool)
    ensures
        ({
            let (after, event) = released(node, gid, writer);
            match event {
                Some(event) => !event.discovered && event.node == node.fullname() && complete(
                    node.endpoints,
                    event.kind,
                    event.name,
                ) && !complete(after.endpoints, event.kind, event.name),
                None => forall|i: int|
                    0 <= i < node.endpoints.len() && is_endpoint(
                        #[trigger] node.endpoints[i],
                        gid,
                        writer,
                    ) && complete(node.endpoints, node.endpoints[i].kind, node.endpoints[i].name)
                        ==> complete(
                        after.endpoints,
                        node.endpoints[i].kind,
                        node.endpoints[i].name,
                    ),
            }
        }),
{
    lemma_first_lost(node, gid, writer, node.endpoints.len());
}

proof fn lemma_first_lost(node: NodeView, gid: Gid, writer: bool, n: nat)
    requires
        n <= node.endpoints.len(),
    ensures
        ({
            let after = endpoints_without(node.endpoints, gid, writer);
            match first_lost(node, gid, writer, n) {
                Some(event) => !event.discovered && event.node == node.fullname() && complete(
                    node.endpoints,
                    event.kind,
                    event.name,
                ) && !complete(after, event.kind, event.name),
                None => forall|i: int|
                    0 <= i < n && is_endpoint(#[trigger] node.endpoints[i], gid, writer)
                        && complete(
                        node.endpoints,
                        node.endpoints[i].kind,
                        node.endpoints[i].name,
                    ) ==> complete(after, node.endpoints[i].kind, node.endpoints[i].name),
            }
        }),
    decreases n,
{
    if n > 0 {
        lemma_first_lost(node, gid, writer, (n - 1) as nat);
    }
}

/// The end of a node is the end of each of its complete interfaces, told once
/// for each, and of nothing else.
pub proof fn law_end_of_node_ends_its_interfaces(node: NodeView)
    ensures
        forall|i: int|
            0 <= i < node.endpoints.len() && complete(
                node.endpoints,
                (#[trigger] node.endpoints[i]).kind,
                node.endpoints[i].name,
            ) ==> told(all_ends(node), node.endpoints[i].kind, node.endpoints[i].name),
        forall|k: int|
            0 <= k < all_ends(node).len() ==> !(#[trigger] all_ends(node)[k]).discovered
                && all_ends(node)[k].node == node.fullname() && complete(
                node.endpoints,
                all_ends(node)[k].kind,
                all_ends(node)[k].name,
            ),
        forall|k: int, l: int|
            0 <= k < l < all_ends(node).len() ==> !((#[trigger] all_ends(node)[k]).kind
                == (#[trigger] all_ends(node)[l]).kind && all_ends(node)[k].name == all_ends(
                node,
            )[l].name),
{
    lemma_ends(node, node.endpoints.len());
}

/// Whether one of the events is about the interface.
pub open spec fn told(events: Seq<EventView>, kind: InterfaceKind, name: Seq<char>) -> bool {
    exists|k: int|
        0 <= k < events.len() && (#[trigger] events[k]).kind == kind && events[k].name == name
}

proof fn lemma_ends(node: NodeView, n: nat)
    requires
        n <= node.endpoints.len(),
    ensures
        forall|i: int|
            0 <= i < n && complete(
                node.endpoints,
                (#[trigger] node.endpoints[i]).kind,
                node.endpoints[i].name,
            ) ==> told(ends(node, n), node.endpoints[i].kind, node.endpoints[i].name),
        forall|k: int|
            0 <= k < ends(node, n).len() ==> !(#[trigger] ends(node, n)[k]).discovered && ends(
                node,
                n,
            )[k].node == node.fullname() && complete(
                node.endpoints,
                ends(node, n)[k].kind,
                ends(node, n)[k].name,
            ) && interface_before(
                node.endpoints,
                ends(node, n)[k].kind,
                ends(node, n)[k].name,
                n as int,
            ),
        forall|k: int, l: int|
            0 <= k < l < ends(node, n).len() ==> !((#[trigger] ends(node, n)[k]).kind
                == (#[trigger] ends(node, n)[l]).kind && ends(node, n)[k].name == ends(
                node,
                n,
            )[l].name),
    decreases n,
{
    if n > 0 {
        lemma_ends(node, (n - 1) as nat);
        let before = ends(node, (n - 1) as nat);
        let after = ends(node, n);
        let eps = node.endpoints;
        let e = eps[n - 1];
        assert forall|kind: InterfaceKind, name: Seq<char>|
            #[trigger] told(before, kind, name) implies told(after, kind, name) by {
            let k = choose|k: int|
                0 <= k < before.len() && (#[trigger] before[k]).kind == kind && before[k].name
                    == name;
            assert(after[k] == before[k]);
        }
        if complete(eps, e.kind, e.name) {
            if interface_before(eps, e.kind, e.name, n - 1) {
                let i = choose|i: int|
                    0 <= i < n - 1 && (#[trigger] eps[i]).kind == e.kind && eps[i].name == e.name;
                assert(told(before, eps[i].kind, eps[i].name));
            } else {
                assert(after[before.len() as int] == event_about(node, e, false));
                assert(told(after, e.kind, e.name));
            }
        }
        assert forall|k: int| 0 <= k < after.len() implies !(#[trigger] after[k]).discovered
            && after[k].node == node.fullname() && complete(eps, after[k].kind, after[k].name)
            && interface_before(eps, after[k].kind, after[k].name, n as int) by {
            if k < before.len() {
                assert(after[k] == before[k]);
                assert(interface_before(eps, before[k].kind, before[k].name, n - 1));
                let i = choose|i: int|
                    0 <= i < n - 1 && (#[trigger] eps[i]).kind == before[k].kind && eps[i].name
                        == before[k].name;
                assert(eps[i].kind == after[k].kind);
            } else {
                assert(eps[n - 1].kind == after[k].kind);
            }
        }
        assert forall|k: int, l: int| 0 <= k < l < after.len() implies !((#[trigger] after[k]).kind
            == (#[trigger] after[l]).kind && after[k].name == after[l].name) by {
            assert(after[k] == before[k]);
            if l < before.len() {
                assert(after[l] == before[l]);
            } else {
                assert(interface_before(eps, before[k].kind, before[k].name, n - 1));
            }
        }
    }
}

/// The event that a new Writer (or Reader) of a node causes is taken back by its
/// end, which leaves the node as it was.
pub proof fn law_end_takes_discovery_back(node: NodeView, e: EntityView, writer: bool)
    requires
        forall|i: int|
            0 <= i < node.endpoints.len() ==> !is_endpoint(
                #[trigger] node.endpoints[i],
                e.key,
                writer,
            ),
    ensures
        ({
            let (with, event) = updated(node, e, writer);
            let (without, end) = released(with, e.key, writer);
            &&& without == node
            &&& match event {
                Some(event) => end == Some(EventView { discovered: false, ..event }),
                None => end is None,
            }
        }),
{
    let (with, event) = updated(node, e, writer);
    let eps = node.endpoints;
    lemma_without(eps, e.key, writer);
    if with.endpoints.len() == eps.len() {
        assert(with == node);
        lemma_first_lost_none(node, e.key, writer, eps.len());
    } else {
        let role = role_of(e.topic_name, writer)->0;
        let ep = endpoint_of(e, role, writer);
        let more = eps.push(ep);
        reveal(Seq::filter);
        assert(more.drop_last() =~= eps);
        assert(endpoints_without(more, e.key, writer) == eps);
        lemma_first_lost_none(with, e.key, writer, eps.len());
    }
}

proof fn lemma_first_lost_none(node: NodeView, gid: Gid, writer: bool, n: nat)
    requires
        n <= node.endpoints.len(),
        forall|j: int| 0 <= j < n ==> !is_endpoint(#[trigger] node.endpoints[j], gid, writer),
    ensures
        first_lost(node, gid, writer, n) is None,
    decreases n,
{
    if n > 0 {
        lemma_first_lost_none(node, gid, writer, (n - 1) as nat);
    }
}

// ---------------------------------------------------------------------------
// The admin space
// ---------------------------------------------------------------------------

/// A discovered participant stands in the admin space under its key, and its
/// entry leads back to it.
pub proof fn law_participant_is_listed(v: EntitiesView, gid: Gid)
    requires
        v.wf(),
        found(v.participants, gid),
    ensures
        lookup(v.admin, participant_key(gid)) matches Some(entry) && v.resolved(entry.entity)
            == Some(EntityValueView::Participant(lookup(v.participants, gid)->0)),
{
}

/// A discovered Writer stands in the admin space under its key, and its entry
/// leads back to it.
pub proof fn law_writer_is_listed(v: EntitiesView, gid: Gid)
    requires
        v.wf(),
        found(v.writers, gid),
    ensures
        ({
            let w = lookup(v.writers, gid)->0;
            lookup(v.admin, entity_key(w, true)) matches Some(entry) && v.resolved(entry.entity)
                == Some(EntityValueView::Writer(w))
        }),
{
    assert(lookup(v.writers, gid) is Some);
}

/// A discovered Reader stands in the admin space under its key, and its entry
/// leads back to it.
pub proof fn law_reader_is_listed(v: EntitiesView, gid: Gid)
    requires
        v.wf(),
        found(v.readers, gid),
    ensures
        ({
            let r = lookup(v.readers, gid)->0;
            lookup(v.admin, entity_key(r, false)) matches Some(entry) && v.resolved(entry.entity)
                == Some(EntityValueView::Reader(r))
        }),
{
    assert(lookup(v.readers, gid) is Some);
}

/// A declared node stands in the admin space under its key, and its entry leads
/// back to it.
pub proof fn law_node_is_listed(v: EntitiesView, participant: Gid, name: Seq<char>)
    requires
        v.wf(),
        node_at(v.nodes, participant, name) is Some,
        name != ORPHAN_NODE_NAME@,
    ensures
        lookup(v.admin, node_key(participant, name)) matches Some(entry) && v.resolved(
            entry.entity,
        ) == Some(EntityValueView::Node(node_at(v.nodes, participant, name)->0)),
{
    let p = place(v.nodes, participant);
    assert(v.nodes[p].gid == participant);
    assert(found(v.nodes[p].slots, name));
    assert(crate::discovery_model::slots_listed(v.nodes[p].gid, v.nodes[p].slots, v.admin));
}

// ---------------------------------------------------------------------------
// The sweep
// ---------------------------------------------------------------------------

proof fn lemma_updated_grows(node: NodeView, e: EntityView, writer: bool, gid: Gid)
    ensures
        claims_writer(node, gid) ==> claims_writer(updated(node, e, writer).0, gid),
        owns_msg_writer(node, gid) ==> owns_msg_writer(updated(node, e, writer).0, gid),
{
    let after = updated(node, e, writer).0;
    if owns_msg_writer(node, gid) {
        let i = choose|i: int|
            0 <= i < node.endpoints.len() && (#[trigger] node.endpoints[i]).kind
                == InterfaceKind::MsgPub && node.endpoints[i].gid == gid;
        assert(after.endpoints[i] == node.endpoints[i]);
    }
}

/// A node that gets the Writer of a plain message topic owns it.
proof fn lemma_updated_owns(node: NodeView, w: EntityView)
    requires
        is_plain_message(w.topic_name),
    ensures
        owns_msg_writer(updated(node, w, true).0, w.key),
{
    law_plain_message_is_published(w.topic_name);
    let role = role_of(w.topic_name, true)->0;
    let after = updated(node, w, true).0;
    if registered(node.endpoints, role, w.key) {
        let i = choose|i: int|
            0 <= i < node.endpoints.len() && serves(
                #[trigger] node.endpoints[i],
                role.kind,
                role.name,
                role.part,
            ) && node.endpoints[i].gid == w.key;
        assert(after.endpoints[i].gid == w.key);
    } else {
        assert(after.endpoints[node.endpoints.len() as int].gid == w.key);
    }
}

/// The place of each node after a Writer is adopted.
proof fn lemma_adopted_shape(st: Sweep, w: EntityView)
    requires
        sweep_wf(st),
    ensures
        ({
            let after = adopted(st, w).nodes;
            let p = place(with_participant(st.nodes, w.participant_key), w.participant_key);
            let s = place(
                with_orphan_node(
                    with_participant(st.nodes, w.participant_key)[p].slots,
                    w.participant_key,
                ),
                ORPHAN_NODE_NAME@,
            );
            &&& st.nodes.len() <= after.len()
            &&& 0 <= p < after.len()
            &&& 0 <= s < after[p].slots.len()
            &&& forall|q: int|
                0 <= q < st.nodes.len() ==> (#[trigger] after[q]).gid == st.nodes[q].gid
                    && st.nodes[q].slots.len() <= after[q].slots.len()
            &&& forall|q: int, t: int|
                #![trigger after[q].slots[t]]
                0 <= q < st.nodes.len() && 0 <= t < st.nodes[q].slots.len() && !(q == p && t == s)
                    ==> after[q].slots[t] == st.nodes[q].slots[t]
            &&& after[p].slots[s].name == ORPHAN_NODE_NAME@
            &&& p < st.nodes.len() && s < st.nodes[p].slots.len() ==> after[p].slots[s].node
                == updated(st.nodes[p].slots[s].node, w, true).0 && st.nodes[p].slots[s].name
                == ORPHAN_NODE_NAME@
            &&& !(p < st.nodes.len() && s < st.nodes[p].slots.len()) ==> after[p].slots[s].node
                == updated(new_node("/"@, ORPHAN_NODE_NAME@, w.participant_key), w, true).0
            &&& forall|q: int, t: int|
                #![trigger after[q].slots[t]]
                0 <= q < after.len() && 0 <= t < after[q].slots.len() && !(q == p && t == s) ==> q
                    < st.nodes.len() && t < st.nodes[q].slots.len()
        }),
{
    let g = w.participant_key;
    let nodes = with_participant(st.nodes, g);
    lemma_with_participant(st.nodes, g, st.admin);
    let p = place(nodes, g);
    let inner = nodes[p].slots;
    assert(slots_wf(nodes[p].gid, inner));
    lemma_with_orphan_node(g, inner);
    let slots = with_orphan_node(inner, g);
    let s = place(slots, ORPHAN_NODE_NAME@);
    let after = adopted(st, w).nodes;
    if !found(st.nodes, g) {
        assert(nodes[st.nodes.len() as int].key() == g);
        lemma_place(nodes, st.nodes.len() as int);
    }
    if !found(inner, ORPHAN_NODE_NAME@) {
        assert(slots[inner.len() as int].key() == ORPHAN_NODE_NAME@);
        lemma_place(slots, inner.len() as int);
    } else {
        lemma_found(inner, ORPHAN_NODE_NAME@);
    }
    assert forall|q: int, t: int|
        #![trigger after[q].slots[t]]
        0 <= q < st.nodes.len() && 0 <= t < st.nodes[q].slots.len() && !(q == p && t
            == s) implies after[q].slots[t] == st.nodes[q].slots[t] by {}
}

/// What a sweep adds: the adopted Writer is owned by an orphan node, nothing that
/// was claimed or owned is lost, and nodes other than orphans stay as they were.
proof fn lemma_adopted_claims(st: Sweep, w: EntityView)
    requires
        sweep_wf(st),
        is_plain_message(w.topic_name),
    ensures
        orphan_owns(adopted(st, w).nodes, w.key),
        claimed(adopted(st, w).nodes, w.key),
        forall|g: Gid| #[trigger] claimed(st.nodes, g) ==> claimed(adopted(st, w).nodes, g),
        forall|h: Gid, g: Gid| #[trigger]
            orphan_owns_at(st.nodes, h, g) ==> orphan_owns_at(adopted(st, w).nodes, h, g),
        forall|g: Gid| #[trigger]
            orphan_owns(adopted(st, w).nodes, g) ==> orphan_owns(st.nodes, g) || g == w.key,
        forall|g: Gid| #[trigger]
            real_claimed(adopted(st, w).nodes, g) ==> real_claimed(st.nodes, g),
{
    lemma_adopted_shape(st, w);
    let after = adopted(st, w).nodes;
    let p = place(with_participant(st.nodes, w.participant_key), w.participant_key);
    let s = place(
        with_orphan_node(
            with_participant(st.nodes, w.participant_key)[p].slots,
            w.participant_key,
        ),
        ORPHAN_NODE_NAME@,
    );
    let had = p < st.nodes.len() && s < st.nodes[p].slots.len();
    let node = if had {
        st.nodes[p].slots[s].node
    } else {
        new_node("/"@, ORPHAN_NODE_NAME@, w.participant_key)
    };
    lemma_updated_owns(node, w);
    assert(owns_msg_writer(after[p].slots[s].node, w.key));
    assert(orphan_owns_in(after[p].slots, w.key));
    assert(claims_writer(after[p].slots[s].node, w.key));
    assert(claimed_in(after[p].slots, w.key));
    assert forall|g: Gid| #[trigger] claimed(st.nodes, g) implies claimed(after, g) by {
        let q = choose|q: int|
            0 <= q < st.nodes.len() && claimed_in((#[trigger] st.nodes[q]).slots, g);
        let t = choose|t: int|
            0 <= t < st.nodes[q].slots.len() && claims_writer(
                (#[trigger] st.nodes[q].slots[t]).node,
                g,
            );
        lemma_updated_grows(st.nodes[q].slots[t].node, w, true, g);
        assert(claims_writer(after[q].slots[t].node, g));
        assert(claimed_in(after[q].slots, g));
    }
    assert forall|h: Gid, g: Gid| #[trigger] orphan_owns_at(
        st.nodes,
        h,
        g,
    ) implies orphan_owns_at(after, h, g) by {
        let q = choose|q: int|
            0 <= q < st.nodes.len() && (#[trigger] st.nodes[q]).gid == h && orphan_owns_in(
                st.nodes[q].slots,
                g,
            );
        let t = choose|t: int|
            0 <= t < st.nodes[q].slots.len() && (#[trigger] st.nodes[q].slots[t]).name
                == ORPHAN_NODE_NAME@ && owns_msg_writer(st.nodes[q].slots[t].node, g);
        lemma_updated_grows(st.nodes[q].slots[t].node, w, true, g);
        assert(owns_msg_writer(after[q].slots[t].node, g));
        assert(after[q].slots[t].name == ORPHAN_NODE_NAME@);
        assert(orphan_owns_in(after[q].slots, g));
    }
    assert forall|g: Gid| #[trigger] orphan_owns(after, g) implies orphan_owns(st.nodes, g) || g
        == w.key by {
        let q = choose|q: int|
            0 <= q < after.len() && orphan_owns_in((#[trigger] after[q]).slots, g);
        let t = choose|t: int|
            0 <= t < after[q].slots.len() && (#[trigger] after[q].slots[t]).name
                == ORPHAN_NODE_NAME@ && owns_msg_writer(after[q].slots[t].node, g);
        if q == p && t == s {
            if g != w.key {
                lemma_updated_owns_back(node, w, true, g);
                assert(owns_msg_writer(node, g));
                assert(had);
                assert(st.nodes[q].slots[t].name == ORPHAN_NODE_NAME@);
                assert(orphan_owns_in(st.nodes[q].slots, g));
            }
        } else {
            assert(after[q].slots[t] == st.nodes[q].slots[t]);
            assert(orphan_owns_in(st.nodes[q].slots, g));
        }
    }
    assert forall|g: Gid| #[trigger] real_claimed(after, g) implies real_claimed(st.nodes, g) by {
        let q = choose|q: int|
            0 <= q < after.len() && real_claimed_in((#[trigger] after[q]).slots, g);
        let t = choose|t: int|
            0 <= t < after[q].slots.len() && (#[trigger] after[q].slots[t]).name
                != ORPHAN_NODE_NAME@ && claims_writer(after[q].slots[t].node, g);
        assert(after[q].slots[t] == st.nodes[q].slots[t]);
        assert(real_claimed_in(st.nodes[q].slots, g));
    }
}

/// What a node owns once it knows one more endpoint it owned before, or it is
/// that endpoint.
proof fn lemma_updated_owns_back(node: NodeView, e: EntityView, writer: bool, gid: Gid)
    requires
        owns_msg_writer(updated(node, e, writer).0, gid),
    ensures
        owns_msg_writer(node, gid) || (writer && gid == e.key),
{
    let after = updated(node, e, writer).0;
    let i = choose|i: int|
        0 <= i < after.endpoints.len() && (#[trigger] after.endpoints[i]).kind
            == InterfaceKind::MsgPub && after.endpoints[i].gid == gid;
    if i < node.endpoints.len() {
        assert(node.endpoints[i] == after.endpoints[i]);
    } else {
        law_readers_do_not_publish(e.topic_name);
    }
}

/// Whether the orphan node of the participant owns the Writer.
pub open spec fn orphan_owns_at(
    nodes: Seq<ParticipantNodesView>,
    participant: Gid,
    gid: Gid,
) -> bool {
    exists|p: int|
        0 <= p < nodes.len() && (#[trigger] nodes[p]).gid == participant && orphan_owns_in(
            nodes[p].slots,
            gid,
        )
}

/// Whether a declared node, other than the orphan node, claims the Writer.
pub open spec fn real_claimed_in(slots: Seq<SlotView>, gid: Gid) -> bool {
    exists|s: int|
        0 <= s < slots.len() && (#[trigger] slots[s]).name != ORPHAN_NODE_NAME@ && claims_writer(
            slots[s].node,
            gid,
        )
}

/// Whether a declared node of some participant claims the Writer.
pub open spec fn real_claimed(nodes: Seq<ParticipantNodesView>, gid: Gid) -> bool {
    exists|p: int| 0 <= p < nodes.len() && real_claimed_in((#[trigger] nodes[p]).slots, gid)
}

/// What an orphan node owns, that of some participant owns.
proof fn lemma_owned_somewhere(nodes: Seq<ParticipantNodesView>, gid: Gid)
    requires
        orphan_owns(nodes, gid),
    ensures
        exists|h: Gid| #[trigger] orphan_owns_at(nodes, h, gid),
{
    let p = choose|p: int| 0 <= p < nodes.len() && orphan_owns_in((#[trigger] nodes[p]).slots, gid);
    assert(orphan_owns_at(nodes, nodes[p].gid, gid));
}

/// What the orphan node of a participant owns is owned by an orphan node.
proof fn lemma_owned_there(nodes: Seq<ParticipantNodesView>, participant: Gid, gid: Gid)
    requires
        orphan_owns_at(nodes, participant, gid),
    ensures
        orphan_owns(nodes, gid),
{
    let p = choose|p: int|
        0 <= p < nodes.len() && (#[trigger] nodes[p]).gid == participant && orphan_owns_in(
            nodes[p].slots,
            gid,
        );
    assert(orphan_owns_in(nodes[p].slots, gid));
}

proof fn lemma_adopted_all_claims(st: Sweep, writers: Seq<EntityView>, n: nat)
    requires
        sweep_wf(st),
        n <= writers.len(),
        forall|i: int| 0 <= i < writers.len() ==> is_plain_message((#[trigger] writers[i]).topic_name),
    ensures
        sweep_wf(adopted_all(st, writers, n)),
        forall|i: int|
            0 <= i < n ==> claimed(
                adopted_all(st, writers, n).nodes,
                (#[trigger] writers[i]).key,
            ) && orphan_owns(adopted_all(st, writers, n).nodes, writers[i].key),
        forall|g: Gid| #[trigger]
            claimed(st.nodes, g) ==> claimed(adopted_all(st, writers, n).nodes, g),
        forall|h: Gid, g: Gid| #[trigger]
            orphan_owns_at(st.nodes, h, g) ==> orphan_owns_at(
                adopted_all(st, writers, n).nodes,
                h,
                g,
            ),
        forall|g: Gid| #[trigger]
            orphan_owns(adopted_all(st, writers, n).nodes, g) ==> orphan_owns(st.nodes, g)
                || exists|i: int| 0 <= i < n && (#[trigger] writers[i]).key == g,
        forall|g: Gid| #[trigger]
            real_claimed(adopted_all(st, writers, n).nodes, g) ==> real_claimed(st.nodes, g),
    decreases n,
{
    if n > 0 {
        lemma_adopted_all_claims(st, writers, (n - 1) as nat);
        let before = adopted_all(st, writers, (n - 1) as nat);
        let w = writers[n - 1];
        lemma_adopted(before, w);
        lemma_adopted_claims(before, w);
        let after = adopted_all(st, writers, n);
        assert forall|i: int| 0 <= i < n implies claimed(
            after.nodes,
            (#[trigger] writers[i]).key,
        ) && orphan_owns(after.nodes, writers[i].key) by {
            if i < n - 1 {
                assert(claimed(before.nodes, writers[i].key));
                assert(orphan_owns(before.nodes, writers[i].key));
                lemma_owned_somewhere(before.nodes, writers[i].key);
                let h = choose|h: Gid| #[trigger] orphan_owns_at(before.nodes, h, writers[i].key);
                assert(orphan_owns_at(after.nodes, h, writers[i].key));
                lemma_owned_there(after.nodes, h, writers[i].key);
            }
        }
        assert forall|g: Gid| #[trigger] claimed(st.nodes, g) implies claimed(after.nodes, g) by {
            assert(claimed(before.nodes, g));
        }
        assert forall|h: Gid, g: Gid| #[trigger] orphan_owns_at(
            st.nodes,
            h,
            g,
        ) implies orphan_owns_at(after.nodes, h, g) by {
            assert(orphan_owns_at(before.nodes, h, g));
        }
        assert forall|g: Gid| #[trigger] orphan_owns(after.nodes, g) implies orphan_owns(
            st.nodes,
            g,
        ) || exists|i: int| 0 <= i < n && (#[trigger] writers[i]).key == g by {
            if g == w.key {
                assert(writers[n - 1].key == g);
            } else {
                assert(orphan_owns(before.nodes, g));
                if !orphan_owns(st.nodes, g) {
                    let i = choose|i: int| 0 <= i < n - 1 && (#[trigger] writers[i]).key == g;
                    assert(writers[i].key == g);
                }
            }
        }
        assert forall|g: Gid| #[trigger] real_claimed(after.nodes, g) implies real_claimed(
            st.nodes,
            g,
        ) by {
            assert(real_claimed(before.nodes, g));
        }
    }
}

/// The candidates of a sweep are the orphans among the Writers, all of them.
pub(crate) proof fn lemma_orphans(writers: Seq<EntityView>, nodes: Seq<ParticipantNodesView>, n: nat)
    requires
        n <= writers.len(),
    ensures
        forall|i: int|
            0 <= i < orphans(writers, nodes, n).len() ==> is_orphan(
                nodes,
                #[trigger] orphans(writers, nodes, n)[i],
            ) && writers.contains(orphans(writers, nodes, n)[i]),
        forall|j: int|
            0 <= j < n && is_orphan(nodes, #[trigger] writers[j]) ==> orphans(
                writers,
                nodes,
                n,
            ).contains(writers[j]),
    decreases n,
{
    if n > 0 {
        lemma_orphans(writers, nodes, (n - 1) as nat);
        let before = orphans(writers, nodes, (n - 1) as nat);
        let after = orphans(writers, nodes, n);
        assert forall|i: int| 0 <= i < after.len() implies is_orphan(nodes, #[trigger] after[i])
            && writers.contains(after[i]) by {
            if i < before.len() {
                assert(after[i] == before[i]);
            }
        }
        assert forall|j: int| 0 <= j < n && is_orphan(nodes, #[trigger] writers[j]) implies after.contains(
            writers[j],
        ) by {
            if j < n - 1 {
                assert(before.contains(writers[j]));
                let i = choose|i: int| 0 <= i < before.len() && before[i] == writers[j];
                assert(after[i] == writers[j]);
            } else {
                assert(after[before.len() as int] == writers[j]);
            }
        }
    }
}

proof fn lemma_swept_claims(v: EntitiesView)
    requires
        v.wf(),
    ensures
        ({
            let candidates = orphans(v.writers, v.nodes, v.writers.len());
            let after = v.swept().0.nodes;
            &&& forall|i: int|
                0 <= i < candidates.len() ==> claimed(after, (#[trigger] candidates[i]).key)
                    && orphan_owns(after, candidates[i].key)
            &&& forall|g: Gid| #[trigger] claimed(v.nodes, g) ==> claimed(after, g)
            &&& forall|h: Gid, g: Gid| #[trigger]
                orphan_owns_at(v.nodes, h, g) ==> orphan_owns_at(after, h, g)
            &&& forall|g: Gid| #[trigger]
                orphan_owns(after, g) ==> orphan_owns(v.nodes, g) || exists|i: int|
                    0 <= i < candidates.len() && (#[trigger] candidates[i]).key == g
            &&& forall|g: Gid| #[trigger] real_claimed(after, g) ==> real_claimed(v.nodes, g)
        }),
{
    let candidates = orphans(v.writers, v.nodes, v.writers.len());
    let st = Sweep { nodes: v.nodes, admin: v.admin, events: Seq::empty() };
    lemma_orphans(v.writers, v.nodes, v.writers.len());
    lemma_adopted_all_claims(st, candidates, candidates.len());
}

/// After a sweep every plain message Writer has an owner, or a node that waits
/// for it.
pub proof fn law_sweep_leaves_no_orphan(v: EntitiesView)
    requires
        v.wf(),
    ensures
        forall|i: int|
            0 <= i < v.swept().0.writers.len() && is_plain_message(
                (#[trigger] v.swept().0.writers[i]).topic_name,
            ) ==> claimed(v.swept().0.nodes, v.swept().0.writers[i].key),
{
    lemma_swept_claims(v);
    lemma_orphans(v.writers, v.nodes, v.writers.len());
    let candidates = orphans(v.writers, v.nodes, v.writers.len());
    let after = v.swept().0;
    assert forall|i: int| 0 <= i < after.writers.len() && is_plain_message(
        (#[trigger] after.writers[i]).topic_name,
    ) implies claimed(after.nodes, after.writers[i].key) by {
        let w = v.writers[i];
        if !claimed(v.nodes, w.key) {
            assert(is_orphan(v.nodes, w));
            assert(candidates.contains(w));
            let j = choose|j: int| 0 <= j < candidates.len() && candidates[j] == w;
            assert(claimed(after.nodes, candidates[j].key));
        }
    }
}

proof fn lemma_no_orphans(writers: Seq<EntityView>, nodes: Seq<ParticipantNodesView>, n: nat)
    requires
        n <= writers.len(),
        forall|i: int| 0 <= i < writers.len() ==> !is_orphan(nodes, #[trigger] writers[i]),
    ensures
        orphans(writers, nodes, n).len() == 0,
    decreases n,
{
    if n > 0 {
        lemma_no_orphans(writers, nodes, (n - 1) as nat);
    }
}

/// A second sweep changes nothing and has nothing to tell.
pub proof fn law_sweep_is_idempotent(v: EntitiesView)
    requires
        v.wf(),
    ensures
        v.swept().0.swept() == (v.swept().0, Seq::<EventView>::empty()),
{
    law_sweep_leaves_no_orphan(v);
    let after = v.swept().0;
    assert forall|i: int| 0 <= i < after.writers.len() implies !is_orphan(
        after.nodes,
        #[trigger] after.writers[i],
    ) by {}
    lemma_no_orphans(after.writers, after.nodes, after.writers.len());
}

/// The event that a sweep sends out for a Writer.
pub open spec fn orphan_event(w: EntityView) -> EventView {
    EventView {
        discovered: true,
        kind: InterfaceKind::MsgPub,
        node: orphan_fullname(),
        name: w.topic_name.skip(2),
        dds_type: w.dds_type,
    }
}

proof fn lemma_adopted_events(st: Sweep, w: EntityView)
    requires
        sweep_wf(st),
        is_plain_message(w.topic_name),
    ensures
        adopted(st, w).events == st.events || adopted(st, w).events == st.events.push(
            orphan_event(w),
        ),
{
    let g = w.participant_key;
    let nodes = with_participant(st.nodes, g);
    lemma_with_participant(st.nodes, g, st.admin);
    let p = place(nodes, g);
    assert(slots_wf(nodes[p].gid, nodes[p].slots));
    lemma_with_orphan_node(g, nodes[p].slots);
    let slots = with_orphan_node(nodes[p].slots, g);
    let s = place(slots, ORPHAN_NODE_NAME@);
    assert(slot_wf(g, slots[s]));
    law_plain_message_is_published(w.topic_name);
}

proof fn lemma_adopted_all_events(st: Sweep, writers: Seq<EntityView>, n: nat)
    requires
        sweep_wf(st),
        n <= writers.len(),
        st.events.len() == 0,
        forall|i: int| 0 <= i < writers.len() ==> is_plain_message((#[trigger] writers[i]).topic_name),
    ensures
        forall|k: int|
            0 <= k < adopted_all(st, writers, n).events.len() ==> exists|i: int|
                0 <= i < n && #[trigger] adopted_all(st, writers, n).events[k] == orphan_event(
                    #[trigger] writers[i],
                ),
    decreases n,
{
    if n > 0 {
        lemma_adopted_all_events(st, writers, (n - 1) as nat);
        lemma_adopted_all(st, writers, (n - 1) as nat);
        let before = adopted_all(st, writers, (n - 1) as nat);
        let after = adopted_all(st, writers, n);
        lemma_adopted_events(before, writers[n - 1]);
        assert forall|k: int| 0 <= k < after.events.len() implies exists|i: int|
            0 <= i < n && #[trigger] after.events[k] == orphan_event(#[trigger] writers[i]) by {
            if k < before.events.len() {
                assert(after.events[k] == before.events[k]);
                let i = choose|i: int|
                    0 <= i < n - 1 && before.events[k] == orphan_event(#[trigger] writers[i]);
                assert(after.events[k] == orphan_event(writers[i]));
            } else {
                assert(after.events[k] == orphan_event(writers[n - 1]));
            }
        }
    }
}

/// All that a sweep tells is that the orphan node publishes a message, and that
/// only for a plain message Writer that no node declares. Writers of services and
/// actions are never forwarded.
pub proof fn law_sweep_forwards_only_orphans(v: EntitiesView)
    requires
        v.wf(),
    ensures
        forall|k: int|
            0 <= k < v.swept().1.len() ==> exists|i: int|
                0 <= i < v.writers.len() && is_orphan(v.nodes, #[trigger] v.writers[i])
                    && #[trigger] v.swept().1[k] == orphan_event(v.writers[i]),
{
    let candidates = orphans(v.writers, v.nodes, v.writers.len());
    let st = Sweep { nodes: v.nodes, admin: v.admin, events: Seq::empty() };
    lemma_orphans(v.writers, v.nodes, v.writers.len());
    lemma_adopted_all_events(st, candidates, candidates.len());
    assert forall|k: int| 0 <= k < v.swept().1.len() implies exists|i: int|
        0 <= i < v.writers.len() && is_orphan(v.nodes, #[trigger] v.writers[i])
            && #[trigger] v.swept().1[k] == orphan_event(v.writers[i]) by {
        let j = choose|j: int|
            0 <= j < candidates.len() && v.swept().1[k] == orphan_event(#[trigger] candidates[j]);
        assert(v.writers.contains(candidates[j]));
        let i = choose|i: int| 0 <= i < v.writers.len() && v.writers[i] == candidates[j];
        assert(v.swept().1[k] == orphan_event(v.writers[i]));
    }
}

/// A Writer that nobody declares is forwarded by the next sweep: its orphan node
/// owns it then.
pub proof fn law_sweep_adopts(v: EntitiesView, i: int)
    requires
        v.wf(),
        0 <= i < v.writers.len(),
        is_orphan(v.nodes, v.writers[i]),
    ensures
        orphan_owns(v.swept().0.nodes, v.writers[i].key),
{
    let candidates = orphans(v.writers, v.nodes, v.writers.len());
    lemma_orphans(v.writers, v.nodes, v.writers.len());
    lemma_swept_claims(v);
    assert(candidates.contains(v.writers[i]));
    let j = choose|j: int| 0 <= j < candidates.len() && candidates[j] == v.writers[i];
    assert(orphan_owns(v.swept().0.nodes, candidates[j].key));
}

proof fn lemma_adopted_spares(st: Sweep, w: EntityView, participant: Gid, name: Seq<char>)
    requires
        sweep_wf(st),
        name != ORPHAN_NODE_NAME@,
    ensures
        node_at(adopted(st, w).nodes, participant, name) == node_at(st.nodes, participant, name),
{
    let g = w.participant_key;
    let nodes = with_participant(st.nodes, g);
    lemma_with_participant(st.nodes, g, st.admin);
    let p = place(nodes, g);
    let inner = nodes[p].slots;
    assert(slots_wf(nodes[p].gid, inner));
    lemma_with_orphan_node(g, inner);
    let slots = with_orphan_node(inner, g);
    let s = place(slots, ORPHAN_NODE_NAME@);
    let slot = SlotView {
        name: slots[s].name,
        node: updated(slots[s].node, w, true).0,
    };
    lemma_update_same_key(slots, s, slot);
    lemma_stored(slots, slot);
    let after = adopted(st, w).nodes;
    lemma_update_same_key(nodes, p, after[p]);
    lemma_stored(nodes, after[p]);
    if !found(st.nodes, g) {
        let pn = ParticipantNodesView { gid: g, slots: Seq::empty() };
        lemma_stored(st.nodes, pn);
        assert(nodes == stored(st.nodes, pn));
    }
    if !found(inner, ORPHAN_NODE_NAME@) {
        let new = SlotView {
            name: ORPHAN_NODE_NAME@,
            node: new_node("/"@, ORPHAN_NODE_NAME@, g),
        };
        lemma_stored(inner, new);
        assert(slots == stored(inner, new));
    }
    assert(lookup(after[p].slots, name) == lookup(slots, name));
    assert(lookup(slots, name) == lookup(inner, name));
    if participant == g {
        assert(lookup(after, g) == Some(after[p]));
        assert(lookup(nodes, g) == Some(nodes[p]));
    } else {
        assert(lookup(after, participant) == lookup(nodes, participant));
        assert(lookup(nodes, participant) == lookup(st.nodes, participant));
    }
}

proof fn lemma_adopted_all_spares(
    st: Sweep,
    writers: Seq<EntityView>,
    n: nat,
    participant: Gid,
    name: Seq<char>,
)
    requires
        sweep_wf(st),
        n <= writers.len(),
        name != ORPHAN_NODE_NAME@,
    ensures
        node_at(adopted_all(st, writers, n).nodes, participant, name) == node_at(
            st.nodes,
            participant,
            name,
        ),
    decreases n,
{
    if n > 0 {
        lemma_adopted_all_spares(st, writers, (n - 1) as nat, participant, name);
        lemma_adopted_all(st, writers, (n - 1) as nat);
        lemma_adopted_spares(
            adopted_all(st, writers, (n - 1) as nat),
            writers[n - 1],
            participant,
            name,
        );
    }
}

/// A sweep leaves declared nodes as they are.
pub proof fn law_sweep_spares_declared_nodes(v: EntitiesView, participant: Gid, name: Seq<char>)
    requires
        v.wf(),
        name != ORPHAN_NODE_NAME@,
    ensures
        node_at(v.swept().0.nodes, participant, name) == node_at(v.nodes, participant, name),
{
    let candidates = orphans(v.writers, v.nodes, v.writers.len());
    lemma_adopted_all_spares(
        Sweep { nodes: v.nodes, admin: v.admin, events: Seq::empty() },
        candidates,
        candidates.len(),
        participant,
        name,
    );
}

// ---------------------------------------------------------------------------
// Once an orphan, always an orphan
// ---------------------------------------------------------------------------

/// No Writer that an orphan node owns is claimed by a declared node too.
pub open spec fn sticky(nodes: Seq<ParticipantNodesView>) -> bool {
    forall|gid: Gid| #[trigger] orphan_owns(nodes, gid) ==> !real_claimed(nodes, gid)
}

/// A sweep takes for orphans only what no node claims, and every orphan keeps its
/// owner.
pub proof fn law_sweep_is_sticky(v: EntitiesView)
    requires
        v.wf(),
        sticky(v.nodes),
    ensures
        sticky(v.swept().0.nodes),
        forall|h: Gid, g: Gid| #[trigger]
            orphan_owns_at(v.nodes, h, g) ==> orphan_owns_at(v.swept().0.nodes, h, g),
{
    let candidates = orphans(v.writers, v.nodes, v.writers.len());
    lemma_orphans(v.writers, v.nodes, v.writers.len());
    lemma_swept_claims(v);
    let after = v.swept().0.nodes;
    assert forall|gid: Gid| #[trigger] orphan_owns(after, gid) implies !real_claimed(after, gid) by {
        if real_claimed(after, gid) {
            assert(real_claimed(v.nodes, gid));
            lemma_real_claimed(v.nodes, gid);
            if !orphan_owns(v.nodes, gid) {
                let i = choose|i: int|
                    0 <= i < candidates.len() && (#[trigger] candidates[i]).key == gid;
                assert(is_orphan(v.nodes, candidates[i]));
            }
        }
    }
}

/// What a declared node claims is claimed.
proof fn lemma_real_claimed(nodes: Seq<ParticipantNodesView>, gid: Gid)
    requires
        real_claimed(nodes, gid),
    ensures
        claimed(nodes, gid),
{
    let p = choose|p: int| 0 <= p < nodes.len() && real_claimed_in((#[trigger] nodes[p]).slots, gid);
    let slots = nodes[p].slots;
    let s = choose|s: int|
        0 <= s < slots.len() && (#[trigger] slots[s]).name != ORPHAN_NODE_NAME@ && claims_writer(
            slots[s].node,
            gid,
        );
    assert(claims_writer(slots[s].node, gid));
    assert(claimed_in(nodes[p].slots, gid));
}

/// The nodes of `b` are those of `a`, where each one of them claims no more.
spec fn shrunk(a: Seq<ParticipantNodesView>, b: Seq<ParticipantNodesView>) -> bool {
    &&& a.len() == b.len()
    &&& forall|p: int|
        #![trigger a[p]]
        #![trigger b[p]]
        0 <= p < a.len() ==> slots_shrunk(a[p].slots, b[p].slots)
}

spec fn slots_shrunk(a: Seq<SlotView>, b: Seq<SlotView>) -> bool {
    &&& a.len() == b.len()
    &&& forall|s: int|
        #![trigger a[s]]
        #![trigger b[s]]
        0 <= s < a.len() ==> a[s].name == b[s].name && node_shrunk(a[s].name, a[s].node, b[s].node)
}

spec fn node_shrunk(name: Seq<char>, a: NodeView, b: NodeView) -> bool {
    &&& forall|g: Gid| #[trigger] claims_writer(b, g) ==> claims_writer(a, g)
    &&& name == ORPHAN_NODE_NAME@ ==> forall|g: Gid| #[trigger]
        owns_msg_writer(b, g) ==> owns_msg_writer(a, g)
}

proof fn lemma_shrunk_sticky(a: Seq<ParticipantNodesView>, b: Seq<ParticipantNodesView>)
    requires
        shrunk(a, b),
        sticky(a),
    ensures
        sticky(b),
{
    assert forall|gid: Gid| #[trigger] orphan_owns(b, gid) implies !real_claimed(b, gid) by {
        let p = choose|p: int| 0 <= p < b.len() && orphan_owns_in((#[trigger] b[p]).slots, gid);
        let sb = b[p].slots;
        let sa = a[p].slots;
        let s = choose|s: int|
            0 <= s < sb.len() && (#[trigger] sb[s]).name == ORPHAN_NODE_NAME@ && owns_msg_writer(
                sb[s].node,
                gid,
            );
        assert(slots_shrunk(sa, sb));
        assert(sa[s].name == ORPHAN_NODE_NAME@ && owns_msg_writer(sa[s].node, gid));
        assert(orphan_owns_in(a[p].slots, gid));
        assert(orphan_owns(a, gid));
        if real_claimed(b, gid) {
            let q = choose|q: int|
                0 <= q < b.len() && real_claimed_in((#[trigger] b[q]).slots, gid);
            let tb = b[q].slots;
            let ta = a[q].slots;
            let t = choose|t: int|
                0 <= t < tb.len() && (#[trigger] tb[t]).name != ORPHAN_NODE_NAME@ && claims_writer(
                    tb[t].node,
                    gid,
                );
            assert(slots_shrunk(ta, tb));
            assert(claims_writer(ta[t].node, gid));
            assert(real_claimed_in(a[q].slots, gid));
            assert(real_claimed(a, gid));
        }
    }
}

/// A node that gets what it waits for claims no more than before.
proof fn lemma_awaited_shrinks(node: NodeView, e: EntityView, writer: bool, gid: Gid)
    requires
        node.undiscovered(writer).contains(e.key),
        claims_writer(awaited(node, e, writer).0, gid),
    ensures
        claims_writer(node, gid),
{
    let list = node.undiscovered(writer);
    list.index_of_first_ensures(e.key);
    let middle = node.with_undiscovered(writer, list.remove_value(e.key));
    if owns_msg_writer(awaited(node, e, writer).0, gid) {
        lemma_updated_owns_back(middle, e, writer, gid);
        if owns_msg_writer(middle, gid) {
            let i = choose|i: int|
                0 <= i < middle.endpoints.len() && (#[trigger] middle.endpoints[i]).kind
                    == InterfaceKind::MsgPub && middle.endpoints[i].gid == gid;
            assert(node.endpoints[i].gid == gid);
            assert(owns_msg_writer(node, gid));
        }
    } else {
        assert(middle.undiscovered_writers.contains(gid));
        let k = choose|k: int|
            0 <= k < middle.undiscovered_writers.len() && middle.undiscovered_writers[k] == gid;
        if writer {
            let i = list.index_of_first(e.key)->0;
            if k < i {
                assert(list[k] == gid);
            } else {
                assert(list[k + 1] == gid);
            }
        }
    }
}

proof fn lemma_slots_awaited_shrinks(
    participant: Gid,
    slots: Seq<SlotView>,
    e: EntityView,
    writer: bool,
)
    requires
        slots_wf(participant, slots),
    ensures
        slots_shrunk(slots, slots_awaited(slots, e, writer).0),
        forall|g: Gid| #[trigger]
            orphan_owns_in(slots, g) ==> orphan_owns_in(slots_awaited(slots, e, writer).0, g),
{
    lemma_awaiting_slot(slots, e.key, writer, slots.len());
    let result = slots_awaited(slots, e, writer).0;
    assert forall|g: Gid| #[trigger] orphan_owns_in(slots, g) implies orphan_owns_in(result, g) by {
        let s = choose|s: int|
            0 <= s < slots.len() && (#[trigger] slots[s]).name == ORPHAN_NODE_NAME@
                && owns_msg_writer(slots[s].node, g);
        assert(slot_wf(participant, slots[s]));
        assert(result[s] == slots[s]);
    }
    if let Some(i) = awaiting_slot(slots, e.key, writer, slots.len()) {
        assert(slot_wf(participant, slots[i]));
        assert(slots[i].name != ORPHAN_NODE_NAME@);
        let after = awaited(slots[i].node, e, writer).0;
        assert forall|g: Gid| #[trigger] claims_writer(after, g) implies claims_writer(
            slots[i].node,
            g,
        ) by {
            lemma_awaited_shrinks(slots[i].node, e, writer, g);
        }
    }
}

proof fn lemma_nodes_awaited_shrinks(
    nodes: Seq<ParticipantNodesView>,
    e: EntityView,
    writer: bool,
    n: nat,
)
    requires
        crate::discovery_model::nodes_wf(nodes),
        n <= nodes.len(),
    ensures
        shrunk(nodes, nodes_awaited(nodes, e, writer, n).0),
        forall|p: int|
            n <= p < nodes.len() ==> #[trigger] nodes_awaited(nodes, e, writer, n).0[p] == nodes[p],
        forall|p: int, g: Gid|
            #![trigger orphan_owns_in(nodes_awaited(nodes, e, writer, n).0[p].slots, g)]
            0 <= p < nodes.len() && orphan_owns_in(nodes[p].slots, g) ==> orphan_owns_in(
                nodes_awaited(nodes, e, writer, n).0[p].slots,
                g,
            ),
    decreases n,
{
    if n > 0 {
        lemma_nodes_awaited_shrinks(nodes, e, writer, (n - 1) as nat);
        let before = nodes_awaited(nodes, e, writer, (n - 1) as nat);
        if before.1 is None {
            assert(before.0[n - 1] == nodes[n - 1]);
            assert(slots_wf(nodes[n - 1].gid, nodes[n - 1].slots));
            lemma_slots_awaited_shrinks(nodes[n - 1].gid, nodes[n - 1].slots, e, writer);
            let after = nodes_awaited(nodes, e, writer, n).0;
            assert forall|p: int|
                #![trigger nodes[p]]
                #![trigger after[p]]
                0 <= p < nodes.len() implies slots_shrunk(nodes[p].slots, after[p].slots) by {
                if p != n - 1 {
                    assert(after[p] == before.0[p]);
                }
            }
            assert forall|p: int, g: Gid|
                #![trigger orphan_owns_in(after[p].slots, g)]
                0 <= p < nodes.len() && orphan_owns_in(nodes[p].slots, g) implies orphan_owns_in(
                after[p].slots,
                g,
            ) by {
                if p != n - 1 {
                    assert(after[p] == before.0[p]);
                    assert(orphan_owns_in(before.0[p].slots, g));
                }
            }
        }
    }
}

/// A report of DDS about a Writer or a Reader never makes a declared node a
/// second owner of an orphan, and every orphan keeps its owner.
pub proof fn law_added_entity_is_sticky(v: EntitiesView, e: EntityView, writer: bool)
    requires
        v.wf(),
        sticky(v.nodes),
    ensures
        sticky(v.entity_added(e, writer).0.nodes),
        forall|h: Gid, g: Gid| #[trigger]
            orphan_owns_at(v.nodes, h, g) ==> orphan_owns_at(
                v.entity_added(e, writer).0.nodes,
                h,
                g,
            ),
{
    let after = v.entity_added(e, writer).0.nodes;
    lemma_nodes_awaited_shrinks(v.nodes, e, writer, v.nodes.len());
    lemma_nodes_awaited_same(v.nodes, e, writer, v.nodes.len());
    lemma_shrunk_sticky(v.nodes, after);
    assert forall|h: Gid, g: Gid| #[trigger] orphan_owns_at(
        v.nodes,
        h,
        g,
    ) implies orphan_owns_at(after, h, g) by {
        let p = choose|p: int|
            0 <= p < v.nodes.len() && (#[trigger] v.nodes[p]).gid == h && orphan_owns_in(
                v.nodes[p].slots,
                g,
            );
        assert(orphan_owns_in(after[p].slots, g));
        assert(after[p].gid == h);
    }
}

proof fn lemma_released_shrinks(node: NodeView, gid: Gid, writer: bool)
    ensures
        forall|g: Gid| #[trigger]
            owns_msg_writer(released(node, gid, writer).0, g) ==> owns_msg_writer(node, g),
        forall|g: Gid| #[trigger]
            claims_writer(released(node, gid, writer).0, g) ==> claims_writer(node, g),
        forall|g: Gid| #[trigger]
            owns_msg_writer(node, g) && (g != gid || (!writer && publishers_write(node)))
                ==> owns_msg_writer(released(node, gid, writer).0, g),
{
    lemma_without(node.endpoints, gid, writer);
    let after = released(node, gid, writer).0;
    assert forall|g: Gid| #[trigger] owns_msg_writer(after, g) implies owns_msg_writer(node, g) by {
        let i = choose|i: int|
            0 <= i < after.endpoints.len() && (#[trigger] after.endpoints[i]).kind
                == InterfaceKind::MsgPub && after.endpoints[i].gid == g;
        assert(node.endpoints.contains(after.endpoints[i]));
        let j = choose|j: int|
            0 <= j < node.endpoints.len() && node.endpoints[j] == after.endpoints[i];
        assert(node.endpoints[j].gid == g);
    }
    assert forall|g: Gid| #[trigger] owns_msg_writer(node, g) && (g != gid || (!writer
        && publishers_write(node))) implies owns_msg_writer(after, g) by {
        let i = choose|i: int|
            0 <= i < node.endpoints.len() && (#[trigger] node.endpoints[i]).kind
                == InterfaceKind::MsgPub && node.endpoints[i].gid == g;
        assert(after.endpoints.contains(node.endpoints[i]));
        let j = choose|j: int|
            0 <= j < after.endpoints.len() && after.endpoints[j] == node.endpoints[i];
        assert(after.endpoints[j].gid == g);
    }
}

proof fn lemma_slots_released_shrinks(slots: Seq<SlotView>, gid: Gid, writer: bool, n: nat)
    requires
        n <= slots.len(),
    ensures
        slots_shrunk(slots, slots_released(slots, gid, writer, n).0),
        forall|s: int|
            n <= s < slots.len() ==> #[trigger] slots_released(slots, gid, writer, n).0[s]
                == slots[s],
        forall|s: int, g: Gid|
            #![trigger owns_msg_writer(slots_released(slots, gid, writer, n).0[s].node, g)]
            0 <= s < slots.len() && (g != gid || (!writer && publishers_write(slots[s].node)))
                && owns_msg_writer(slots[s].node, g) ==> owns_msg_writer(
                slots_released(slots, gid, writer, n).0[s].node,
                g,
            ),
    decreases n,
{
    if n > 0 {
        lemma_slots_released_shrinks(slots, gid, writer, (n - 1) as nat);
        let before = slots_released(slots, gid, writer, (n - 1) as nat);
        let after = slots_released(slots, gid, writer, n).0;
        if before.1 is None {
            assert(before.0[n - 1] == slots[n - 1]);
            lemma_released_shrinks(slots[n - 1].node, gid, writer);
            assert forall|s: int|
                #![trigger slots[s]]
                #![trigger after[s]]
                0 <= s < slots.len() implies slots[s].name == after[s].name && node_shrunk(
                slots[s].name,
                slots[s].node,
                after[s].node,
            ) by {
                if s != n - 1 {
                    assert(after[s] == before.0[s]);
                }
            }
            assert forall|s: int, g: Gid|
                #![trigger owns_msg_writer(after[s].node, g)]
                0 <= s < slots.len() && (g != gid || (!writer && publishers_write(slots[s].node)))
                    && owns_msg_writer(slots[s].node, g) implies owns_msg_writer(after[s].node, g) by {
                if s != n - 1 {
                    assert(after[s] == before.0[s]);
                    assert(owns_msg_writer(before.0[s].node, g));
                }
            }
        }
    }
}

proof fn lemma_nodes_released_shrinks(
    nodes: Seq<ParticipantNodesView>,
    gid: Gid,
    writer: bool,
    n: nat,
)
    requires
        crate::discovery_model::nodes_wf(nodes),
        n <= nodes.len(),
    ensures
        shrunk(nodes, nodes_released(nodes, gid, writer, n).0),
        forall|p: int|
            n <= p < nodes.len() ==> #[trigger] nodes_released(nodes, gid, writer, n).0[p]
                == nodes[p],
        forall|p: int, g: Gid|
            #![trigger orphan_owns_in(nodes_released(nodes, gid, writer, n).0[p].slots, g)]
            0 <= p < nodes.len() && (g != gid || !writer) && orphan_owns_in(nodes[p].slots, g)
                ==> orphan_owns_in(nodes_released(nodes, gid, writer, n).0[p].slots, g),
    decreases n,
{
    if n > 0 {
        lemma_nodes_released_shrinks(nodes, gid, writer, (n - 1) as nat);
        let before = nodes_released(nodes, gid, writer, (n - 1) as nat);
        let after = nodes_released(nodes, gid, writer, n).0;
        if before.1 is None {
            assert(before.0[n - 1] == nodes[n - 1]);
            let inner = nodes[n - 1].slots;
            lemma_slots_released_shrinks(inner, gid, writer, inner.len());
            assert forall|p: int|
                #![trigger nodes[p]]
                #![trigger after[p]]
                0 <= p < nodes.len() implies slots_shrunk(nodes[p].slots, after[p].slots) by {
                if p != n - 1 {
                    assert(after[p] == before.0[p]);
                }
            }
            assert forall|p: int, g: Gid|
                #![trigger orphan_owns_in(after[p].slots, g)]
                0 <= p < nodes.len() && (g != gid || !writer) && orphan_owns_in(
                    nodes[p].slots,
                    g,
                ) implies orphan_owns_in(after[p].slots, g) by {
                if p != n - 1 {
                    assert(after[p] == before.0[p]);
                    assert(orphan_owns_in(before.0[p].slots, g));
                } else {
                    let s = choose|s: int|
                        0 <= s < inner.len() && (#[trigger] inner[s]).name == ORPHAN_NODE_NAME@
                            && owns_msg_writer(inner[s].node, g);
                    let outer = after[p].slots;
                    assert(slots_wf(nodes[p].gid, nodes[p].slots));
                    assert(slot_wf(nodes[p].gid, inner[s]));
                    assert(owns_msg_writer(outer[s].node, g));
                    assert(outer[s].name == ORPHAN_NODE_NAME@);
                }
            }
        }
    }
}

/// The end of a Writer or a Reader never makes a declared node a second owner of
/// an orphan, and every orphan but the Writer that ends keeps its owner.
pub proof fn law_removed_entity_is_sticky(v: EntitiesView, gid: Gid, writer: bool)
    requires
        v.wf(),
        sticky(v.nodes),
    ensures
        sticky(v.entity_removed(gid, writer).0.nodes),
        forall|h: Gid, g: Gid|
            (g != gid || !writer) && #[trigger] orphan_owns_at(v.nodes, h, g) ==> orphan_owns_at(
                v.entity_removed(gid, writer).0.nodes,
                h,
                g,
            ),
{
    if lookup(v.entities(writer), gid) is Some {
        let after = v.entity_removed(gid, writer).0.nodes;
        lemma_nodes_released_shrinks(v.nodes, gid, writer, v.nodes.len());
        lemma_shrunk_sticky(v.nodes, after);
        lemma_nodes_released_same(v.nodes, gid, writer, v.nodes.len());
        assert forall|h: Gid, g: Gid| (g != gid || !writer) && #[trigger] orphan_owns_at(
            v.nodes,
            h,
            g,
        ) implies orphan_owns_at(after, h, g) by {
            let p = choose|p: int|
                0 <= p < v.nodes.len() && (#[trigger] v.nodes[p]).gid == h && orphan_owns_in(
                    v.nodes[p].slots,
                    g,
                );
            assert(orphan_owns_in(after[p].slots, g));
            assert(after[p].gid == h);
        }
    }
}

/// The end of a participant never makes a declared node a second owner of an
/// orphan, and the orphans of other participants keep their owner.
pub proof fn law_removed_participant_is_sticky(v: EntitiesView, gid: Gid)
    requires
        v.wf(),
        sticky(v.nodes),
    ensures
        sticky(v.participant_removed(gid).0.nodes),
        forall|h: Gid, g: Gid|
            h != gid && #[trigger] orphan_owns_at(v.nodes, h, g) ==> orphan_owns_at(
                v.participant_removed(gid).0.nodes,
                h,
                g,
            ),
{
    let after = v.participant_removed(gid).0.nodes;
    lemma_removed(v.nodes, gid);
    lemma_removed_items(v.nodes, gid);
    assert forall|g: Gid| #[trigger] orphan_owns(after, g) implies !real_claimed(after, g) by {
        let p = choose|p: int| 0 <= p < after.len() && orphan_owns_in((#[trigger] after[p]).slots, g);
        assert(v.nodes.contains(after[p]));
        let q = choose|q: int| 0 <= q < v.nodes.len() && v.nodes[q] == after[p];
        assert(orphan_owns_in(v.nodes[q].slots, g));
        assert(orphan_owns(v.nodes, g));
        if real_claimed(after, g) {
            let i = choose|i: int|
                0 <= i < after.len() && real_claimed_in((#[trigger] after[i]).slots, g);
            assert(v.nodes.contains(after[i]));
            let j = choose|j: int| 0 <= j < v.nodes.len() && v.nodes[j] == after[i];
            assert(real_claimed_in(v.nodes[j].slots, g));
            assert(real_claimed(v.nodes, g));
        }
    }
    assert forall|h: Gid, g: Gid| h != gid && #[trigger] orphan_owns_at(
        v.nodes,
        h,
        g,
    ) implies orphan_owns_at(after, h, g) by {
        let q = choose|q: int|
            0 <= q < v.nodes.len() && (#[trigger] v.nodes[q]).gid == h && orphan_owns_in(
                v.nodes[q].slots,
                g,
            );
        lemma_place(v.nodes, q);
        assert(lookup(after, h) == lookup(v.nodes, h));
        lemma_found(after, h);
        let p = place(after, h);
        assert(after[p] == v.nodes[q]);
        assert(after[p].gid == h);
    }
}

/// What a node claims once endpoints are attached to it: what it claimed before,
/// and Writers that are not to be skipped.
proof fn lemma_attached_claims(
    node: NodeView,
    gids: Seq<Gid>,
    entities: Seq<EntityView>,
    writer: bool,
    skip: Set<Gid>,
    n: nat,
    g: Gid,
)
    requires
        n <= gids.len(),
        claims_writer(attached(node, gids, entities, writer, skip, n).0, g),
    ensures
        claims_writer(node, g) || (writer && !skip.contains(g)),
    decreases n,
{
    if n > 0 {
        let nd = attached(node, gids, entities, writer, skip, (n - 1) as nat).0;
        let gid = gids[n - 1];
        if claims_writer(nd, g) {
            lemma_attached_claims(node, gids, entities, writer, skip, (n - 1) as nat, g);
        } else if !skip.contains(gid) {
            if let Some(e) = lookup(entities, gid) {
                lemma_found(entities, gid);
                if owns_msg_writer(updated(nd, e, writer).0, g) {
                    lemma_updated_owns_back(nd, e, writer, g);
                }
            } else {
                let next = nd.with_undiscovered(writer, nd.undiscovered(writer).push(gid));
                if owns_msg_writer(next, g) {
                    let i = choose|i: int|
                        0 <= i < next.endpoints.len() && (#[trigger] next.endpoints[i]).kind
                            == InterfaceKind::MsgPub && next.endpoints[i].gid == g;
                    assert(nd.endpoints[i].gid == g);
                    assert(owns_msg_writer(nd, g));
                } else {
                    let k = choose|k: int|
                        0 <= k < next.undiscovered_writers.len() && next.undiscovered_writers[k]
                            == g;
                    if k < nd.undiscovered_writers.len() {
                        assert(nd.undiscovered_writers[k] == g);
                    }
                }
            }
        }
    }
}

/// Declared nodes claim no more than before but for Writers that are not to be
/// skipped, and the orphan node stays as it was.
spec fn declared_grow(a: Seq<SlotView>, b: Seq<SlotView>, skip: Set<Gid>) -> bool {
    forall|g: Gid|
        #![trigger real_claimed_in(b, g)]
        #![trigger orphan_owns_in(b, g)]
        (real_claimed_in(b, g) ==> real_claimed_in(a, g) || !skip.contains(g)) && (orphan_owns_in(
            b,
            g,
        ) == orphan_owns_in(a, g))
}

proof fn lemma_staying_all(slots: Seq<SlotView>, decls: Seq<NodeDeclView>, n: nat)
    requires
        n <= slots.len(),
    ensures
        forall|j: int|
            0 <= j < n && stays(#[trigger] slots[j], decls) ==> staying(
                slots,
                decls,
                n,
            ).contains(slots[j]),
        forall|i: int|
            0 <= i < staying(slots, decls, n).len() ==> slots.contains(
                #[trigger] staying(slots, decls, n)[i],
            ),
    decreases n,
{
    if n > 0 {
        lemma_staying_all(slots, decls, (n - 1) as nat);
        let before = staying(slots, decls, (n - 1) as nat);
        let after = staying(slots, decls, n);
        assert forall|j: int| 0 <= j < n && stays(#[trigger] slots[j], decls) implies after.contains(
            slots[j],
        ) by {
            if j < n - 1 {
                assert(before.contains(slots[j]));
                let i = choose|i: int| 0 <= i < before.len() && before[i] == slots[j];
                assert(after[i] == slots[j]);
            } else {
                assert(after[before.len() as int] == slots[j]);
            }
        }
        assert forall|i: int| 0 <= i < after.len() implies slots.contains(#[trigger] after[i]) by {
            if i < before.len() {
                assert(after[i] == before[i]);
            }
        }
    }
}

proof fn lemma_staying_grows(slots: Seq<SlotView>, decls: Seq<NodeDeclView>, skip: Set<Gid>)
    ensures
        declared_grow(slots, staying(slots, decls, slots.len()), skip),
{
    lemma_staying_all(slots, decls, slots.len());
    let stay = staying(slots, decls, slots.len());
    assert forall|g: Gid|
        #![trigger real_claimed_in(stay, g)]
        #![trigger orphan_owns_in(stay, g)]
        (real_claimed_in(stay, g) ==> real_claimed_in(slots, g) || !skip.contains(g)) && (
        orphan_owns_in(stay, g) == orphan_owns_in(slots, g)) by {
        if real_claimed_in(stay, g) {
            let i = choose|i: int|
                0 <= i < stay.len() && (#[trigger] stay[i]).name != ORPHAN_NODE_NAME@
                    && claims_writer(stay[i].node, g);
            assert(slots.contains(stay[i]));
            let j = choose|j: int| 0 <= j < slots.len() && slots[j] == stay[i];
            assert(slots[j].name != ORPHAN_NODE_NAME@);
        }
        if orphan_owns_in(stay, g) {
            let i = choose|i: int|
                0 <= i < stay.len() && (#[trigger] stay[i]).name == ORPHAN_NODE_NAME@
                    && owns_msg_writer(stay[i].node, g);
            assert(slots.contains(stay[i]));
            let j = choose|j: int| 0 <= j < slots.len() && slots[j] == stay[i];
            assert(slots[j].name == ORPHAN_NODE_NAME@);
        }
        if orphan_owns_in(slots, g) {
            let j = choose|j: int|
                0 <= j < slots.len() && (#[trigger] slots[j]).name == ORPHAN_NODE_NAME@
                    && owns_msg_writer(slots[j].node, g);
            assert(stays(slots[j], decls));
            let i = choose|i: int| 0 <= i < stay.len() && stay[i] == slots[j];
            assert(stay[i].name == ORPHAN_NODE_NAME@);
        }
    }
}

proof fn lemma_declaring_grows(
    st: Declaring,
    participant: Gid,
    decl: NodeDeclView,
    readers: Seq<EntityView>,
    writers: Seq<EntityView>,
    skip: Set<Gid>,
)
    requires
        declaring_wf(participant, st),
    ensures
        declared_grow(
            st.slots,
            declaring(st, participant, decl, readers, writers, skip).slots,
            skip,
        ),
{
    if !st.stopped && can_declare(st.slots, participant, decl) {
        let name = decl.key();
        lemma_full_name_is_no_orphan(decl.namespace, decl.name);
        let (slots, admin) = with_node(st.slots, st.admin, participant, decl);
        if !found(st.slots, name) {
            let slot = SlotView { name, node: new_node(decl.namespace, decl.name, participant) };
            assert(slots == st.slots.push(slot));
            assert(slots[st.slots.len() as int].key() == name);
        }
        assert(found(slots, name));
        let i = place(slots, name);
        let node = slots[i].node;
        let first = attached(
            node,
            decl.readers,
            readers,
            false,
            Set::empty(),
            decl.readers.len(),
        ).0;
        let second = attached(first, decl.writers, writers, true, skip, decl.writers.len()).0;
        let after = declaring(st, participant, decl, readers, writers, skip).slots;
        assert(after == slots.update(i, SlotView { name: slots[i].name, node: second }));
        assert forall|g: Gid|
            #![trigger real_claimed_in(after, g)]
            #![trigger orphan_owns_in(after, g)]
            (real_claimed_in(after, g) ==> real_claimed_in(st.slots, g) || !skip.contains(g)) && (
            orphan_owns_in(after, g) == orphan_owns_in(st.slots, g)) by {
            if real_claimed_in(after, g) && skip.contains(g) {
                let s = choose|s: int|
                    0 <= s < after.len() && (#[trigger] after[s]).name != ORPHAN_NODE_NAME@
                        && claims_writer(after[s].node, g);
                if s == i {
                    lemma_attached_claims(
                        first,
                        decl.writers,
                        writers,
                        true,
                        skip,
                        decl.writers.len(),
                        g,
                    );
                    lemma_attached_claims(
                        node,
                        decl.readers,
                        readers,
                        false,
                        Set::empty(),
                        decl.readers.len(),
                        g,
                    );
                }
                assert(claims_writer(slots[s].node, g));
                assert(s < st.slots.len());
                assert(st.slots[s].name != ORPHAN_NODE_NAME@);
            }
            if orphan_owns_in(after, g) {
                let s = choose|s: int|
                    0 <= s < after.len() && (#[trigger] after[s]).name == ORPHAN_NODE_NAME@
                        && owns_msg_writer(after[s].node, g);
                assert(s != i);
                assert(s < st.slots.len());
                assert(st.slots[s] == after[s]);
            }
            if orphan_owns_in(st.slots, g) {
                let s = choose|s: int|
                    0 <= s < st.slots.len() && (#[trigger] st.slots[s]).name
                        == ORPHAN_NODE_NAME@ && owns_msg_writer(st.slots[s].node, g);
                assert(slots[s] == st.slots[s]);
                assert(s != i);
                assert(after[s] == st.slots[s]);
            }
        }
    }
}

proof fn lemma_declaring_all_grows(
    st: Declaring,
    participant: Gid,
    decls: Seq<NodeDeclView>,
    readers: Seq<EntityView>,
    writers: Seq<EntityView>,
    skip: Set<Gid>,
    n: nat,
)
    requires
        declaring_wf(participant, st),
        n <= decls.len(),
    ensures
        declared_grow(
            st.slots,
            declaring_all(st, participant, decls, readers, writers, skip, n).slots,
            skip,
        ),
        declaring_wf(
            participant,
            declaring_all(st, participant, decls, readers, writers, skip, n),
        ),
    decreases n,
{
    if n > 0 {
        lemma_declaring_all_grows(st, participant, decls, readers, writers, skip, (n - 1) as nat);
        let before = declaring_all(st, participant, decls, readers, writers, skip, (n - 1) as nat);
        lemma_declaring(before, participant, decls[n - 1], readers, writers, skip);
        lemma_declaring_grows(before, participant, decls[n - 1], readers, writers, skip);
        let after = declaring_all(st, participant, decls, readers, writers, skip, n).slots;
        assert forall|g: Gid|
            #![trigger real_claimed_in(after, g)]
            #![trigger orphan_owns_in(after, g)]
            (real_claimed_in(after, g) ==> real_claimed_in(st.slots, g) || !skip.contains(g)) && (
            orphan_owns_in(after, g) == orphan_owns_in(st.slots, g)) by {
            let _ = real_claimed_in(before.slots, g);
            let _ = orphan_owns_in(before.slots, g);
        }
    }
}

/// Where the nodes of a participant are replaced by grown ones, no orphan gets a
/// second owner and every orphan keeps its own.
proof fn lemma_grown_sticky(
    nodes: Seq<ParticipantNodesView>,
    p: int,
    pn: ParticipantNodesView,
)
    requires
        sticky(nodes),
        0 <= p < nodes.len(),
        declared_grow(nodes[p].slots, pn.slots, orphan_owned(nodes)),
    ensures
        sticky(nodes.update(p, pn)),
        forall|g: Gid| #[trigger] orphan_owns(nodes, g) == orphan_owns(nodes.update(p, pn), g),
{
    let after = nodes.update(p, pn);
    assert forall|g: Gid| #[trigger] orphan_owns(nodes, g) == orphan_owns(after, g) by {
        if orphan_owns(nodes, g) {
            let q = choose|q: int|
                0 <= q < nodes.len() && orphan_owns_in((#[trigger] nodes[q]).slots, g);
            assert(orphan_owns_in(after[q].slots, g));
        }
        if orphan_owns(after, g) {
            let q = choose|q: int|
                0 <= q < after.len() && orphan_owns_in((#[trigger] after[q]).slots, g);
            assert(orphan_owns_in(nodes[q].slots, g));
        }
    }
    assert forall|g: Gid| #[trigger] orphan_owns(after, g) implies !real_claimed(after, g) by {
        assert(orphan_owns(nodes, g));
        assert(orphan_owned(nodes).contains(g));
        if real_claimed(after, g) {
            let q = choose|q: int|
                0 <= q < after.len() && real_claimed_in((#[trigger] after[q]).slots, g);
            assert(real_claimed_in(nodes[q].slots, g));
            assert(real_claimed(nodes, g));
        }
    }
}

/// A Writer that was forwarded as an orphan stays with the orphan node: a node
/// that declares it later does not become a second owner.
pub proof fn law_declaration_is_sticky(v: EntitiesView, info: ParticipantDeclView)
    requires
        v.wf(),
        sticky(v.nodes),
    ensures
        sticky(v.participant_declared(info).0.nodes),
        forall|h: Gid, g: Gid| #[trigger]
            orphan_owns_at(v.nodes, h, g) == orphan_owns_at(
                v.participant_declared(info).0.nodes,
                h,
                g,
            ),
{
    let g = info.gid;
    let nodes = with_participant(v.nodes, g);
    lemma_with_participant(v.nodes, g, v.admin);
    lemma_with_participant_sticky(v.nodes, g);
    let p = place(nodes, g);
    let slots = nodes[p].slots;
    assert(nodes[p].gid == g);
    assert(slots_wf(nodes[p].gid, slots));
    assert(crate::discovery_model::slots_listed(nodes[p].gid, slots, v.admin));
    lemma_retired(g, slots, info.nodes, v.admin);
    let gone = leaving(slots, info.nodes, slots.len());
    let (admin, events) = nodes_gone(gone, v.admin, gone.len());
    let stay = staying(slots, info.nodes, slots.len());
    let st = Declaring { slots: stay, admin, events, stopped: false };
    let skip = orphan_owned(v.nodes);
    assert(skip =~= orphan_owned(nodes));
    lemma_staying_grows(slots, info.nodes, skip);
    lemma_declaring_all_grows(
        st,
        g,
        info.nodes,
        v.readers,
        v.writers,
        skip,
        info.nodes.len(),
    );
    let after = v.participant_declared(info).0.nodes;
    let grown = after[p].slots;
    assert forall|x: Gid|
        #![trigger real_claimed_in(grown, x)]
        #![trigger orphan_owns_in(grown, x)]
        (real_claimed_in(grown, x) ==> real_claimed_in(slots, x) || !skip.contains(x)) && (
        orphan_owns_in(grown, x) == orphan_owns_in(slots, x)) by {
        let _ = real_claimed_in(stay, x);
        let _ = orphan_owns_in(stay, x);
    }
    lemma_grown_sticky(nodes, p, after[p]);
    assert(after == nodes.update(p, after[p]));
    assert forall|h: Gid, x: Gid| #[trigger] orphan_owns_at(v.nodes, h, x) == orphan_owns_at(
        after,
        h,
        x,
    ) by {
        if orphan_owns_at(v.nodes, h, x) {
            let q = choose|q: int|
                0 <= q < v.nodes.len() && (#[trigger] v.nodes[q]).gid == h && orphan_owns_in(
                    v.nodes[q].slots,
                    x,
                );
            assert(nodes[q] == v.nodes[q]);
            assert(orphan_owns_in(after[q].slots, x));
            assert(after[q].gid == h);
        }
        if orphan_owns_at(after, h, x) {
            let q = choose|q: int|
                0 <= q < after.len() && (#[trigger] after[q]).gid == h && orphan_owns_in(
                    after[q].slots,
                    x,
                );
            assert(orphan_owns_in(nodes[q].slots, x));
            assert(q < v.nodes.len());
            assert(v.nodes[q].gid == h);
        }
    }
}

/// A declared node leaves the orphan node as it was.
proof fn lemma_declaring_spares_orphan(
    st: Declaring,
    participant: Gid,
    decl: NodeDeclView,
    readers: Seq<EntityView>,
    writers: Seq<EntityView>,
    skip: Set<Gid>,
)
    requires
        declaring_wf(participant, st),
    ensures
        lookup(
            declaring(st, participant, decl, readers, writers, skip).slots,
            ORPHAN_NODE_NAME@,
        ) == lookup(st.slots, ORPHAN_NODE_NAME@),
{
    if !st.stopped && can_declare(st.slots, participant, decl) {
        let name = decl.key();
        lemma_full_name_is_no_orphan(decl.namespace, decl.name);
        let slots = with_node(st.slots, st.admin, participant, decl).0;
        let new = SlotView { name, node: new_node(decl.namespace, decl.name, participant) };
        lemma_stored(st.slots, new);
        if !found(st.slots, name) {
            assert(slots == stored(st.slots, new));
        }
        lemma_found(slots, name);
        let i = place(slots, name);
        let node = node_declared(slots[i].node, decl, readers, writers, skip).0;
        let slot = SlotView { name: slots[i].name, node };
        lemma_update_same_key(slots, i, slot);
        lemma_stored(slots, slot);
    }
}

proof fn lemma_declaring_all_spares_orphan(
    st: Declaring,
    participant: Gid,
    decls: Seq<NodeDeclView>,
    readers: Seq<EntityView>,
    writers: Seq<EntityView>,
    skip: Set<Gid>,
    n: nat,
)
    requires
        declaring_wf(participant, st),
        n <= decls.len(),
    ensures
        lookup(
            declaring_all(st, participant, decls, readers, writers, skip, n).slots,
            ORPHAN_NODE_NAME@,
        ) == lookup(st.slots, ORPHAN_NODE_NAME@),
    decreases n,
{
    if n > 0 {
        let m = (n - 1) as nat;
        lemma_declaring_all_spares_orphan(st, participant, decls, readers, writers, skip, m);
        lemma_declaring_all_grows(st, participant, decls, readers, writers, skip, m);
        lemma_declaring_spares_orphan(
            declaring_all(st, participant, decls, readers, writers, skip, m),
            participant,
            decls[n - 1],
            readers,
            writers,
            skip,
        );
    }
}

proof fn lemma_staying_spares_orphan(slots: Seq<SlotView>, decls: Seq<NodeDeclView>)
    requires
        unique(slots),
        unique(staying(slots, decls, slots.len())),
    ensures
        lookup(staying(slots, decls, slots.len()), ORPHAN_NODE_NAME@) == lookup(
            slots,
            ORPHAN_NODE_NAME@,
        ),
{
    lemma_staying_all(slots, decls, slots.len());
    let stay = staying(slots, decls, slots.len());
    if found(slots, ORPHAN_NODE_NAME@) {
        let j = place(slots, ORPHAN_NODE_NAME@);
        assert(stays(slots[j], decls));
        let i = choose|i: int| 0 <= i < stay.len() && stay[i] == slots[j];
        lemma_place(stay, i);
    } else if found(stay, ORPHAN_NODE_NAME@) {
        let i = place(stay, ORPHAN_NODE_NAME@);
        assert(slots.contains(stay[i]));
        let j = choose|j: int| 0 <= j < slots.len() && slots[j] == stay[i];
        assert(slots[j].key() == ORPHAN_NODE_NAME@);
    }
}

/// Whatever a participant declares, its orphan node stays as it was. A Writer that
/// the orphan node owns, and that no other node of the participant claims, is
/// claimed by none of them afterwards either.
pub proof fn law_declaration_leaves_the_orphan_node(
    v: EntitiesView,
    info: ParticipantDeclView,
    gid: Gid,
)
    requires
        v.wf(),
        node_at(v.nodes, info.gid, ORPHAN_NODE_NAME@) matches Some(node) && owns_msg_writer(
            node,
            gid,
        ),
        forall|name: Seq<char>|
            name != ORPHAN_NODE_NAME@ ==> ((#[trigger] node_at(v.nodes, info.gid, name)) matches Some(
                node,
            ) ==> !claims_writer(node, gid)),
    ensures
        node_at(v.participant_declared(info).0.nodes, info.gid, ORPHAN_NODE_NAME@) == node_at(
            v.nodes,
            info.gid,
            ORPHAN_NODE_NAME@,
        ),
        forall|name: Seq<char>|
            name != ORPHAN_NODE_NAME@ ==> ((#[trigger] node_at(
                v.participant_declared(info).0.nodes,
                info.gid,
                name,
            )) matches Some(node) ==> !claims_writer(node, gid)),
{
    let g = info.gid;
    let nodes = v.nodes;
    let p = place(nodes, g);
    let slots = nodes[p].slots;
    lemma_found(nodes, g);
    assert(with_participant(nodes, g) == nodes);
    assert(slots_wf(nodes[p].gid, slots));
    assert(crate::discovery_model::slots_listed(nodes[p].gid, slots, v.admin));
    lemma_retired(g, slots, info.nodes, v.admin);
    let gone = leaving(slots, info.nodes, slots.len());
    let (admin, events) = nodes_gone(gone, v.admin, gone.len());
    let stay = staying(slots, info.nodes, slots.len());
    let st = Declaring { slots: stay, admin, events, stopped: false };
    let skip = orphan_owned(nodes);
    let n = info.nodes.len();
    lemma_staying_grows(slots, info.nodes, skip);
    lemma_declaring_all_grows(st, g, info.nodes, v.readers, v.writers, skip, n);
    lemma_staying_spares_orphan(slots, info.nodes);
    lemma_declaring_all_spares_orphan(st, g, info.nodes, v.readers, v.writers, skip, n);
    let after = v.participant_declared(info).0.nodes;
    let grown = after[p].slots;
    lemma_update_same_key(nodes, p, after[p]);
    lemma_stored(nodes, after[p]);
    assert(lookup(after, g) == Some(after[p]));
    // the orphan node owns the Writer, so the declaration passes it over
    lemma_found(slots, ORPHAN_NODE_NAME@);
    assert(slots[place(slots, ORPHAN_NODE_NAME@)].name == ORPHAN_NODE_NAME@);
    assert(orphan_owns_in(nodes[p].slots, gid));
    assert(orphan_owns(nodes, gid));
    assert(skip.contains(gid));
    assert(!real_claimed_in(slots, gid)) by {
        if real_claimed_in(slots, gid) {
            let s = choose|s: int|
                0 <= s < slots.len() && (#[trigger] slots[s]).name != ORPHAN_NODE_NAME@
                    && claims_writer(slots[s].node, gid);
            lemma_place(slots, s);
            assert(node_at(nodes, g, slots[s].name) == Some(slots[s].node));
        }
    }
    assert(!real_claimed_in(stay, gid));
    assert(!real_claimed_in(grown, gid));
    assert forall|name: Seq<char>| name != ORPHAN_NODE_NAME@ implies ((#[trigger] node_at(
        after,
        g,
        name,
    )) matches Some(node) ==> !claims_writer(node, gid)) by {
        if found(grown, name) {
            lemma_found(grown, name);
            assert(grown[place(grown, name)].name != ORPHAN_NODE_NAME@);
        }
    }
}

/// The declaration of a node without the Writers in `skip`.
pub open spec fn decl_without(decl: NodeDeclView, skip: Set<Gid>) -> NodeDeclView {
    NodeDeclView { writers: decl.writers.filter(|g: Gid| !skip.contains(g)), ..decl }
}

/// The declaration of a participant without the Writers in `skip`.
pub open spec fn info_without(info: ParticipantDeclView, skip: Set<Gid>) -> ParticipantDeclView {
    ParticipantDeclView {
        nodes: Seq::new(info.nodes.len(), |i: int| decl_without(info.nodes[i], skip)),
        ..info
    }
}

/// What is attached depends on what is declared up to there.
proof fn lemma_attached_prefix(
    node: NodeView,
    a: Seq<Gid>,
    b: Seq<Gid>,
    entities: Seq<EntityView>,
    skip: Set<Gid>,
    n: nat,
)
    requires
        n <= a.len(),
        n <= b.len(),
        forall|i: int| 0 <= i < n ==> #[trigger] a[i] == b[i],
    ensures
        attached(node, a, entities, true, skip, n) == attached(node, b, entities, true, skip, n),
    decreases n,
{
    if n > 0 {
        lemma_attached_prefix(node, a, b, entities, skip, (n - 1) as nat);
        assert(a[n - 1] == b[n - 1]);
    }
}

/// To pass Writers over is the same as not to see them declared.
proof fn lemma_attached_without(
    node: NodeView,
    gids: Seq<Gid>,
    entities: Seq<EntityView>,
    skip: Set<Gid>,
)
    ensures
        ({
            let kept = gids.filter(|g: Gid| !skip.contains(g));
            attached(node, gids, entities, true, skip, gids.len()) == attached(
                node,
                kept,
                entities,
                true,
                skip,
                kept.len(),
            )
        }),
    decreases gids.len(),
{
    reveal(Seq::filter);
    let keep = |g: Gid| !skip.contains(g);
    if gids.len() > 0 {
        let rest = gids.drop_last();
        let last = gids.last();
        lemma_attached_without(node, rest, entities, skip);
        lemma_attached_prefix(node, gids, rest, entities, skip, rest.len());
        let before = rest.filter(keep);
        if !skip.contains(last) {
            assert(gids.filter(keep) == before.push(last));
            lemma_attached_prefix(
                node,
                before.push(last),
                before,
                entities,
                skip,
                before.len(),
            );
        } else {
            assert(gids.filter(keep) == before);
        }
    } else {
        assert(gids.filter(keep) =~= gids);
    }
}

proof fn lemma_stays_without(info: ParticipantDeclView, skip: Set<Gid>, slots: Seq<SlotView>, n: nat)
    requires
        n <= slots.len(),
    ensures
        staying(slots, info.nodes, n) == staying(slots, info_without(info, skip).nodes, n),
        leaving(slots, info.nodes, n) == leaving(slots, info_without(info, skip).nodes, n),
    decreases n,
{
    if n > 0 {
        lemma_stays_without(info, skip, slots, (n - 1) as nat);
        let a = info.nodes;
        let b = info_without(info, skip).nodes;
        let name = slots[n - 1].name;
        if found(a, name) {
            let i = place(a, name);
            assert(b[i].key() == name);
        }
        if found(b, name) {
            let i = place(b, name);
            assert(a[i].key() == name);
        }
    }
}

proof fn lemma_declaring_all_without(
    st: Declaring,
    info: ParticipantDeclView,
    readers: Seq<EntityView>,
    writers: Seq<EntityView>,
    skip: Set<Gid>,
    n: nat,
)
    requires
        n <= info.nodes.len(),
    ensures
        declaring_all(st, info.gid, info.nodes, readers, writers, skip, n) == declaring_all(
            st,
            info.gid,
            info_without(info, skip).nodes,
            readers,
            writers,
            skip,
            n,
        ),
    decreases n,
{
    if n > 0 {
        lemma_declaring_all_without(st, info, readers, writers, skip, (n - 1) as nat);
        let before = declaring_all(
            st,
            info.gid,
            info.nodes,
            readers,
            writers,
            skip,
            (n - 1) as nat,
        );
        let decl = info.nodes[n - 1];
        let slots = with_node(before.slots, before.admin, info.gid, decl).0;
        let node = slots[place(slots, decl.key())].node;
        let first = attached(
            node,
            decl.readers,
            readers,
            false,
            Set::empty(),
            decl.readers.len(),
        ).0;
        lemma_attached_without(first, decl.writers, writers, skip);
        assert(info_without(info, skip).nodes[n - 1] == decl_without(decl, skip));
    }
}

/// There is nothing to tell about a Writer that an orphan node owns: a participant
/// that declares it gives the same nodes, the same admin space and the same events
/// as one that leaves it out.
pub proof fn law_declared_orphan_is_not_told(v: EntitiesView, info: ParticipantDeclView)
    ensures
        ({
            let (with, told) = v.participant_declared(info);
            let (without, told_without) = v.participant_declared(
                info_without(info, orphan_owned(v.nodes)),
            );
            &&& told == told_without
            &&& with.nodes == without.nodes
            &&& with.admin == without.admin
        }),
{
    let skip = orphan_owned(v.nodes);
    let nodes = with_participant(v.nodes, info.gid);
    let slots = nodes[place(nodes, info.gid)].slots;
    lemma_stays_without(info, skip, slots, slots.len());
    let gone = leaving(slots, info.nodes, slots.len());
    let (admin, events) = nodes_gone(gone, v.admin, gone.len());
    lemma_declaring_all_without(
        Declaring {
            slots: staying(slots, info.nodes, slots.len()),
            admin,
            events,
            stopped: false,
        },
        info,
        v.readers,
        v.writers,
        skip,
        info.nodes.len(),
    );
}

proof fn lemma_with_participant_sticky(nodes: Seq<ParticipantNodesView>, participant: Gid)
    ensures
        forall|g: Gid| #[trigger]
            orphan_owns(with_participant(nodes, participant), g) == orphan_owns(nodes, g),
        sticky(nodes) ==> sticky(with_participant(nodes, participant)),
{
    let after = with_participant(nodes, participant);
    assert forall|g: Gid| #[trigger] orphan_owns(after, g) == orphan_owns(nodes, g) by {
        if orphan_owns(after, g) {
            let q = choose|q: int|
                0 <= q < after.len() && orphan_owns_in((#[trigger] after[q]).slots, g);
            assert(q < nodes.len());
            assert(orphan_owns_in(nodes[q].slots, g));
        }
        if orphan_owns(nodes, g) {
            let q = choose|q: int|
                0 <= q < nodes.len() && orphan_owns_in((#[trigger] nodes[q]).slots, g);
            assert(orphan_owns_in(after[q].slots, g));
        }
    }
    if sticky(nodes) {
        assert forall|g: Gid| #[trigger] orphan_owns(after, g) implies !real_claimed(after, g) by {
            if real_claimed(after, g) {
                let q = choose|q: int|
                    0 <= q < after.len() && real_claimed_in((#[trigger] after[q]).slots, g);
                assert(q < nodes.len());
                assert(real_claimed_in(nodes[q].slots, g));
                assert(real_claimed(nodes, g));
            }
        }
    }
}

/// At the start no orphan has a second owner.
pub proof fn law_start_is_sticky()
    ensures
        sticky(crate::discovery_model::no_entities().nodes),
{
}

/// A node that declares nothing but Writers of orphan nodes gets none of them,
/// and there is nothing to tell.
pub proof fn law_late_claim_is_ignored(
    node: NodeView,
    decl: NodeDeclView,
    readers: Seq<EntityView>,
    writers: Seq<EntityView>,
    skip: Set<Gid>,
)
    requires
        decl.readers.len() == 0,
        forall|i: int| 0 <= i < decl.writers.len() ==> skip.contains(#[trigger] decl.writers[i]),
    ensures
        node_declared(node, decl, readers, writers, skip) == (node, Seq::<EventView>::empty()),
{
    lemma_all_skipped(node, decl.writers, writers, skip, decl.writers.len());
    assert(Seq::<EventView>::empty() + Seq::<EventView>::empty() =~= Seq::empty());
}

proof fn lemma_all_skipped(
    node: NodeView,
    gids: Seq<Gid>,
    entities: Seq<EntityView>,
    skip: Set<Gid>,
    n: nat,
)
    requires
        n <= gids.len(),
        forall|i: int| 0 <= i < gids.len() ==> skip.contains(#[trigger] gids[i]),
    ensures
        attached(node, gids, entities, true, skip, n) == (node, Seq::<EventView>::empty()),
    decreases n,
{
    if n > 0 {
        lemma_all_skipped(node, gids, entities, skip, (n - 1) as nat);
    }
}

// ---------------------------------------------------------------------------
// What one report undoes of another
// ---------------------------------------------------------------------------

/// Whether some node waits for the Writer (or the Reader) or has it as an
/// endpoint.
pub open spec fn in_use(nodes: Seq<ParticipantNodesView>, gid: Gid, writer: bool) -> bool {
    exists|p: int, s: int|
        0 <= p < nodes.len() && 0 <= s < nodes[p].slots.len() && node_uses(
            (#[trigger] nodes[p].slots[s]).node,
            gid,
            writer,
        )
}

/// Whether the node waits for the Writer (or the Reader) or has it as an
/// endpoint.
pub open spec fn node_uses(node: NodeView, gid: Gid, writer: bool) -> bool {
    node.undiscovered(writer).contains(gid) || exists|i: int|
        0 <= i < node.endpoints.len() && is_endpoint(#[trigger] node.endpoints[i], gid, writer)
}

proof fn lemma_nodes_awaited_unused(
    nodes: Seq<ParticipantNodesView>,
    e: EntityView,
    writer: bool,
    n: nat,
)
    requires
        n <= nodes.len(),
        !in_use(nodes, e.key, writer),
    ensures
        nodes_awaited(nodes, e, writer, n) == (nodes, None::<EventView>),
    decreases n,
{
    if n > 0 {
        lemma_nodes_awaited_unused(nodes, e, writer, (n - 1) as nat);
        let slots = nodes[n - 1].slots;
        lemma_awaiting_slot(slots, e.key, writer, slots.len());
        if let Some(i) = awaiting_slot(slots, e.key, writer, slots.len()) {
            assert(node_uses(nodes[n - 1].slots[i].node, e.key, writer));
        }
        assert(nodes.update(n - 1, nodes[n - 1]) =~= nodes);
    }
}

proof fn lemma_slots_released_unused(slots: Seq<SlotView>, gid: Gid, writer: bool, n: nat)
    requires
        n <= slots.len(),
        forall|s: int| 0 <= s < slots.len() ==> !node_uses((#[trigger] slots[s]).node, gid, writer),
    ensures
        slots_released(slots, gid, writer, n) == (slots, None::<EventView>),
    decreases n,
{
    if n > 0 {
        lemma_slots_released_unused(slots, gid, writer, (n - 1) as nat);
        let node = slots[n - 1].node;
        assert(!node_uses(node, gid, writer));
        assert forall|j: int| 0 <= j < node.endpoints.len() implies !is_endpoint(
            #[trigger] node.endpoints[j],
            gid,
            writer,
        ) by {}
        lemma_without(node.endpoints, gid, writer);
        lemma_first_lost_none(node, gid, writer, node.endpoints.len());
        assert(slots.update(n - 1, slots[n - 1]) =~= slots);
    }
}

proof fn lemma_nodes_released_unused(
    nodes: Seq<ParticipantNodesView>,
    gid: Gid,
    writer: bool,
    n: nat,
)
    requires
        n <= nodes.len(),
        !in_use(nodes, gid, writer),
    ensures
        nodes_released(nodes, gid, writer, n) == (nodes, None::<EventView>),
    decreases n,
{
    if n > 0 {
        lemma_nodes_released_unused(nodes, gid, writer, (n - 1) as nat);
        let slots = nodes[n - 1].slots;
        assert forall|s: int| 0 <= s < slots.len() implies !node_uses(
            (#[trigger] slots[s]).node,
            gid,
            writer,
        ) by {
            assert(!node_uses(nodes[n - 1].slots[s].node, gid, writer));
        }
        lemma_slots_released_unused(slots, gid, writer, slots.len());
        assert(nodes.update(n - 1, nodes[n - 1]) =~= nodes);
    }
}

/// A new Writer (or Reader) that no node uses comes and goes without a trace.
pub proof fn law_removal_undoes_addition(v: EntitiesView, e: EntityView, writer: bool)
    requires
        v.wf(),
        !found(v.entities(writer), e.key),
        !found(v.admin, entity_key(e, writer)),
        !in_use(v.nodes, e.key, writer),
    ensures
        v.entity_added(e, writer).1 is None,
        v.entity_added(e, writer).0.entity_removed(e.key, writer) == (v, None::<EventView>),
{
    lemma_nodes_awaited_unused(v.nodes, e, writer, v.nodes.len());
    lemma_nodes_released_unused(v.nodes, e.key, writer, v.nodes.len());
    let w = v.entity_added(e, writer).0;
    let entry = entity_entry(e, writer);
    lemma_stored(v.entities(writer), e);
    lemma_stored(v.admin, entry);
    let es = v.entities(writer);
    lemma_place(es.push(e), es.len() as int);
    assert(es.push(e).remove(es.len() as int) =~= es);
    lemma_place(v.admin.push(entry), v.admin.len() as int);
    assert(v.admin.push(entry).remove(v.admin.len() as int) =~= v.admin);
    assert(w.entities(writer) == es.push(e));
    assert(lookup(w.entities(writer), e.key) == Some(e));
    assert(removed(w.entities(writer), e.key) == es);
    assert(removed(w.admin, entity_key(e, writer)) == v.admin);
}

} // verus!
