//! Every report keeps the discovered entities well formed.
use crate::admin_keys::{
    entity_key, law_entity_key_injective, law_keys_disjoint, law_node_key_injective,
    law_participant_key_injective, node_key, participant_key,
};
use crate::dds::{EntityView, ParticipantView};
use crate::discovery_model::{
    adopted, adopted_all, attached, awaiting_slot, can_declare, declaring, declaring_all,
    entities_listed, entity_entry, leaving, node_declared, node_entry, nodes_awaited, nodes_gone,
    nodes_listed, nodes_released, nodes_wf, orphan_fullname, orphan_owned, orphans,
    participant_entry, participants_listed, slot_wf, slots_awaited, slots_listed, slots_released,
    slots_wf, staying, stays, with_node, with_orphan_node, with_participant, AdminView, Declaring,
    EntitiesView, ParticipantNodesView, SlotView, Sweep, ORPHAN_NODE_NAME,
};
use crate::gid::Gid;
use crate::naming::{full_name, InterfaceKind};
use crate::node_info::{
    awaited, endpoints_without, is_endpoint, new_node, publishers_write, released, updated,
    EndpointView, NodeView,
};
use crate::ros_discovery::{NodeDeclView, ParticipantDeclView};
use crate::table::{
    found, lemma_removed, lemma_removed_items, lemma_stored, lemma_update_same_key, lookup, place,
    removed, stored, unique, HasKey,
};
use vstd::prelude::*;

verus! {

/// An item that is found has the key it is found by.
pub proof fn lemma_found<A: HasKey>(s: Seq<A>, k: A::K)
    requires
        found(s, k),
    ensures
        0 <= place(s, k) < s.len(),
        s[place(s, k)].key() == k,
        lookup(s, k) == Some(s[place(s, k)]),
{
}

/// A participant that is added leaves all well formed.
pub proof fn lemma_participant_added(v: EntitiesView, participant: ParticipantView)
    requires
        v.wf(),
    ensures
        v.participant_added(participant).wf(),
{
    let a = participant_entry(participant.key);
    lemma_stored(v.participants, participant);
    lemma_stored(v.admin, a);
    assert forall|gid: Gid| #[trigger]
        found(stored(v.participants, participant), gid) implies lookup(
        stored(v.admin, a),
        participant_key(gid),
    ) == Some(participant_entry(gid)) by {
        if gid != participant.key {
            if participant_key(gid) == participant_key(participant.key) {
                law_participant_key_injective(gid, participant.key);
            }
            assert(found(v.participants, gid));
        }
    }
    assert forall|gid: Gid| (#[trigger] lookup(v.writers, gid)) matches Some(e) implies lookup(
        stored(v.admin, a),
        entity_key(lookup(v.writers, gid)->0, true),
    ) == Some(entity_entry(lookup(v.writers, gid)->0, true)) by {
        law_keys_disjoint(participant.key, lookup(v.writers, gid)->0, true, gid, Seq::empty());
    }
    assert forall|gid: Gid| (#[trigger] lookup(v.readers, gid)) matches Some(e) implies lookup(
        stored(v.admin, a),
        entity_key(lookup(v.readers, gid)->0, false),
    ) == Some(entity_entry(lookup(v.readers, gid)->0, false)) by {
        law_keys_disjoint(participant.key, lookup(v.readers, gid)->0, false, gid, Seq::empty());
    }
    lemma_nodes_listed_other(v.nodes, v.admin, stored(v.admin, a), a.key);
}

/// Nodes stay listed when only the entry under a key that is no node's changes.
proof fn lemma_nodes_listed_other(
    nodes: Seq<ParticipantNodesView>,
    before: Seq<AdminView>,
    after: Seq<AdminView>,
    key: Seq<char>,
)
    requires
        nodes_listed(nodes, before),
        forall|k: Seq<char>| k != key ==> #[trigger] lookup(after, k) == lookup(before, k),
        (exists|gid: Gid| key == #[trigger] participant_key(gid)) || (exists|
            e: EntityView,
            writer: bool,
        |
            key == #[trigger] entity_key(e, writer)),
    ensures
        nodes_listed(nodes, after),
{
    assert forall|p: int| 0 <= p < nodes.len() implies slots_listed(
        (#[trigger] nodes[p]).gid,
        nodes[p].slots,
        after,
    ) by {
        let g = nodes[p].gid;
        assert forall|name: Seq<char>| #[trigger]
            found(nodes[p].slots, name) && name != ORPHAN_NODE_NAME@ implies lookup(
            after,
            node_key(g, name),
        ) == Some(node_entry(g, name)) by {
            assert(slots_listed(g, nodes[p].slots, before));
            if exists|gid: Gid| key == #[trigger] participant_key(gid) {
                let gid = choose|gid: Gid| key == #[trigger] participant_key(gid);
                let e = arbitrary::<EntityView>();
                law_keys_disjoint(gid, e, true, g, name);
            } else {
                let (e, writer) = choose|e: EntityView, writer: bool|
                    key == #[trigger] entity_key(e, writer);
                law_keys_disjoint(g, e, writer, g, name);
            }
        }
    }
}

// ---------------------------------------------------------------------------
// Writers and Readers that come and go
// ---------------------------------------------------------------------------

/// The two are the same node, though with other endpoints. The second waits for
/// nothing if the first does, and publishes with Writers if the first does.
pub open spec fn same_node(a: NodeView, b: NodeView) -> bool {
    &&& a.participant == b.participant
    &&& a.namespace == b.namespace
    &&& a.name == b.name
    &&& a.undiscovered_writers.len() == 0 ==> b.undiscovered_writers.len() == 0
    &&& a.undiscovered_readers.len() == 0 ==> b.undiscovered_readers.len() == 0
    &&& publishers_write(a) ==> publishers_write(b)
}

pub open spec fn same_slots(a: Seq<SlotView>, b: Seq<SlotView>) -> bool {
    &&& a.len() == b.len()
    &&& forall|s: int|
        #![trigger a[s]]
        #![trigger b[s]]
        0 <= s < a.len() ==> a[s].name == b[s].name && same_node(a[s].node, b[s].node)
}

/// The same nodes, in the same order, though with other endpoints.
pub open spec fn same_nodes(
    a: Seq<ParticipantNodesView>,
    b: Seq<ParticipantNodesView>,
) -> bool {
    &&& a.len() == b.len()
    &&& forall|p: int|
        #![trigger a[p]]
        #![trigger b[p]]
        0 <= p < a.len() ==> a[p].gid == b[p].gid && same_slots(a[p].slots, b[p].slots)
}

proof fn lemma_same_slots_found(a: Seq<SlotView>, b: Seq<SlotView>, name: Seq<char>)
    requires
        same_slots(a, b),
    ensures
        found(a, name) == found(b, name),
{
    if found(a, name) {
        let i = place(a, name);
        assert(b[i].key() == name);
    }
    if found(b, name) {
        let i = place(b, name);
        assert(a[i].key() == name);
    }
}

/// The same nodes are well formed and listed alike.
proof fn lemma_same_nodes(
    a: Seq<ParticipantNodesView>,
    b: Seq<ParticipantNodesView>,
    admin: Seq<AdminView>,
)
    requires
        same_nodes(a, b),
        nodes_wf(a),
    ensures
        nodes_wf(b),
        nodes_listed(a, admin) ==> nodes_listed(b, admin),
{
    assert(unique(b)) by {
        assert forall|i: int, j: int|
            #![trigger b[i], b[j]]
            0 <= i < j < b.len() implies b[i].key() != b[j].key() by {
            assert(a[i].key() != a[j].key());
        }
    }
    assert forall|p: int| 0 <= p < b.len() implies slots_wf(
        (#[trigger] b[p]).gid,
        b[p].slots,
    ) by {
        let sa = a[p].slots;
        let sb = b[p].slots;
        assert(slots_wf(a[p].gid, sa));
        assert forall|i: int, j: int|
            #![trigger sb[i], sb[j]]
            0 <= i < j < sb.len() implies sb[i].key() != sb[j].key() by {
            assert(sa[i].key() != sa[j].key());
        }
        assert forall|s: int| 0 <= s < sb.len() implies slot_wf(b[p].gid, #[trigger] sb[s]) by {
            assert(slot_wf(a[p].gid, sa[s]));
        }
    }
    if nodes_listed(a, admin) {
        assert forall|p: int| 0 <= p < b.len() implies slots_listed(
            (#[trigger] b[p]).gid,
            b[p].slots,
            admin,
        ) by {
            assert(slots_listed(a[p].gid, a[p].slots, admin));
            assert forall|name: Seq<char>| #[trigger]
                found(b[p].slots, name) && name != ORPHAN_NODE_NAME@ implies lookup(
                admin,
                node_key(b[p].gid, name),
            ) == Some(node_entry(b[p].gid, name)) by {
                lemma_same_slots_found(a[p].slots, b[p].slots, name);
            }
        }
    }
}

proof fn lemma_same_nodes_transitive(
    a: Seq<ParticipantNodesView>,
    b: Seq<ParticipantNodesView>,
    c: Seq<ParticipantNodesView>,
)
    requires
        same_nodes(a, b),
        same_nodes(b, c),
    ensures
        same_nodes(a, c),
{
    assert forall|p: int|
        #![trigger a[p]]
        #![trigger c[p]]
        0 <= p < a.len() implies a[p].gid == c[p].gid && same_slots(a[p].slots, c[p].slots) by {
        let b_p = b[p];
        assert(same_slots(a[p].slots, b_p.slots));
        assert(same_slots(b_p.slots, c[p].slots));
        let sa = a[p].slots;
        let sc = c[p].slots;
        assert forall|s: int|
            #![trigger sa[s]]
            #![trigger sc[s]]
            0 <= s < sa.len() implies sa[s].name == sc[s].name && same_node(
            sa[s].node,
            sc[s].node,
        ) by {
            let sb = b_p.slots[s];
        }
    }
}

/// What is left of the endpoints was there before.
pub proof fn lemma_without(endpoints: Seq<EndpointView>, gid: Gid, writer: bool)
    ensures
        forall|i: int|
            0 <= i < endpoints_without(endpoints, gid, writer).len() ==> endpoints.contains(
                #[trigger] endpoints_without(endpoints, gid, writer)[i],
            ),
        forall|j: int|
            0 <= j < endpoints.len() && !is_endpoint(#[trigger] endpoints[j], gid, writer)
                ==> endpoints_without(endpoints, gid, writer).contains(endpoints[j]),
        (forall|j: int| 0 <= j < endpoints.len() ==> !is_endpoint(#[trigger] endpoints[j], gid, writer))
            ==> endpoints_without(endpoints, gid, writer) == endpoints,
    decreases endpoints.len(),
{
    reveal(Seq::filter);
    if endpoints.len() > 0 {
        let rest = endpoints.drop_last();
        lemma_without(rest, gid, writer);
        let before = endpoints_without(rest, gid, writer);
        let after = endpoints_without(endpoints, gid, writer);
        assert forall|i: int| 0 <= i < after.len() implies endpoints.contains(
            #[trigger] after[i],
        ) by {
            if i < before.len() {
                assert(after[i] == before[i]);
                assert(rest.contains(before[i]));
                let j = choose|j: int| 0 <= j < rest.len() && rest[j] == before[i];
                assert(endpoints[j] == after[i]);
            } else {
                assert(endpoints[endpoints.len() - 1] == after[i]);
            }
        }
        assert forall|j: int|
            0 <= j < endpoints.len() && !is_endpoint(
                #[trigger] endpoints[j],
                gid,
                writer,
            ) implies after.contains(endpoints[j]) by {
            if j < rest.len() {
                assert(rest[j] == endpoints[j]);
                assert(before.contains(rest[j]));
                let i = choose|i: int| 0 <= i < before.len() && before[i] == rest[j];
                assert(after[i] == endpoints[j]);
            } else {
                assert(after[before.len() as int] == endpoints[j]);
            }
        }
        if forall|j: int|
            0 <= j < endpoints.len() ==> !is_endpoint(#[trigger] endpoints[j], gid, writer) {
            assert forall|j: int| 0 <= j < rest.len() implies !is_endpoint(
                #[trigger] rest[j],
                gid,
                writer,
            ) by {
                assert(rest[j] == endpoints[j]);
            }
            assert(!is_endpoint(endpoints[endpoints.len() - 1], gid, writer));
            assert(rest.push(endpoints.last()) =~= endpoints);
        }
    }
}

/// A node that gets an endpoint publishes with Writers as before.
proof fn lemma_updated_writes(node: NodeView, e: EntityView, writer: bool)
    requires
        publishers_write(node),
    ensures
        publishers_write(updated(node, e, writer).0),
{
    let after = updated(node, e, writer).0;
    assert forall|i: int|
        0 <= i < after.endpoints.len() && (#[trigger] after.endpoints[i]).kind
            == InterfaceKind::MsgPub implies after.endpoints[i].writer by {
        if i < node.endpoints.len() {
            assert(after.endpoints[i] == node.endpoints[i]);
        }
    }
}

/// A node that loses an endpoint publishes with Writers as before.
proof fn lemma_released_writes(node: NodeView, gid: Gid, writer: bool)
    requires
        publishers_write(node),
    ensures
        publishers_write(released(node, gid, writer).0),
{
    let after = released(node, gid, writer).0;
    lemma_without(node.endpoints, gid, writer);
    assert forall|i: int|
        0 <= i < after.endpoints.len() && (#[trigger] after.endpoints[i]).kind
            == InterfaceKind::MsgPub implies after.endpoints[i].writer by {
        assert(node.endpoints.contains(after.endpoints[i]));
        let j = choose|j: int|
            0 <= j < node.endpoints.len() && node.endpoints[j] == after.endpoints[i];
        assert(node.endpoints[j].writer);
    }
}

proof fn lemma_awaited_same(node: NodeView, e: EntityView, writer: bool)
    ensures
        same_node(node, awaited(node, e, writer).0),
{
    node.undiscovered(writer).index_of_first_ensures(e.key);
    if publishers_write(node) {
        let list = node.undiscovered(writer).remove_value(e.key);
        assert(publishers_write(node.with_undiscovered(writer, list)));
        lemma_updated_writes(node.with_undiscovered(writer, list), e, writer);
    }
}

/// Where the first node is that waits for `gid`.
pub proof fn lemma_awaiting_slot(slots: Seq<SlotView>, gid: Gid, writer: bool, n: nat)
    requires
        n <= slots.len(),
    ensures
        match awaiting_slot(slots, gid, writer, n) {
            Some(i) => 0 <= i < n && slots[i].node.undiscovered(writer).contains(gid) && forall|
                j: int,
            |
                0 <= j < i ==> !(#[trigger] slots[j]).node.undiscovered(writer).contains(gid),
            None => forall|j: int|
                0 <= j < n ==> !(#[trigger] slots[j]).node.undiscovered(writer).contains(gid),
        },
    decreases n,
{
    if n > 0 {
        lemma_awaiting_slot(slots, gid, writer, (n - 1) as nat);
    }
}

proof fn lemma_slots_awaited_same(slots: Seq<SlotView>, e: EntityView, writer: bool)
    ensures
        same_slots(slots, slots_awaited(slots, e, writer).0),
{
    lemma_awaiting_slot(slots, e.key, writer, slots.len());
    if let Some(i) = awaiting_slot(slots, e.key, writer, slots.len()) {
        lemma_awaited_same(slots[i].node, e, writer);
    }
}

/// A report of DDS leaves the nodes the same.
pub proof fn lemma_nodes_awaited_same(
    nodes: Seq<ParticipantNodesView>,
    e: EntityView,
    writer: bool,
    n: nat,
)
    requires
        n <= nodes.len(),
    ensures
        same_nodes(nodes, nodes_awaited(nodes, e, writer, n).0),
    decreases n,
{
    if n > 0 {
        lemma_nodes_awaited_same(nodes, e, writer, (n - 1) as nat);
        let before = nodes_awaited(nodes, e, writer, (n - 1) as nat);
        if before.1 is None {
            lemma_slots_awaited_same(before.0[n - 1].slots, e, writer);
            lemma_same_nodes_transitive(
                nodes,
                before.0,
                nodes_awaited(nodes, e, writer, n).0,
            );
        }
    }
}

proof fn lemma_slots_released_same(slots: Seq<SlotView>, gid: Gid, writer: bool, n: nat)
    requires
        n <= slots.len(),
    ensures
        same_slots(slots, slots_released(slots, gid, writer, n).0),
    decreases n,
{
    if n > 0 {
        lemma_slots_released_same(slots, gid, writer, (n - 1) as nat);
        let before = slots_released(slots, gid, writer, (n - 1) as nat).0;
        if publishers_write(before[n - 1].node) {
            lemma_released_writes(before[n - 1].node, gid, writer);
        }
        let after = slots_released(slots, gid, writer, n).0;
        assert forall|s: int|
            #![trigger slots[s]]
            #![trigger after[s]]
            0 <= s < slots.len() implies slots[s].name == after[s].name && same_node(
            slots[s].node,
            after[s].node,
        ) by {
            let b = before[s];
        }
    }
}

/// The end of an entity leaves the nodes the same.
pub proof fn lemma_nodes_released_same(
    nodes: Seq<ParticipantNodesView>,
    gid: Gid,
    writer: bool,
    n: nat,
)
    requires
        n <= nodes.len(),
    ensures
        same_nodes(nodes, nodes_released(nodes, gid, writer, n).0),
    decreases n,
{
    if n > 0 {
        lemma_nodes_released_same(nodes, gid, writer, (n - 1) as nat);
        let before = nodes_released(nodes, gid, writer, (n - 1) as nat);
        if before.1 is None {
            let inner = before.0[n - 1].slots;
            lemma_slots_released_same(inner, gid, writer, inner.len());
            lemma_same_nodes_transitive(
                nodes,
                before.0,
                nodes_released(nodes, gid, writer, n).0,
            );
        }
    }
}

/// A Writer or a Reader that is added leaves all well formed.
pub proof fn lemma_entity_added(v: EntitiesView, e: EntityView, writer: bool)
    requires
        v.wf(),
    ensures
        v.entity_added(e, writer).0.wf(),
{
    let a = entity_entry(e, writer);
    let after = stored(v.admin, a);
    lemma_stored(v.admin, a);
    lemma_stored(v.entities(writer), e);
    assert forall|gid: Gid| #[trigger] found(v.participants, gid) implies lookup(
        after,
        participant_key(gid),
    ) == Some(participant_entry(gid)) by {
        law_keys_disjoint(gid, e, writer, gid, Seq::empty());
    }
    assert forall|side: bool, gid: Gid| (#[trigger] lookup(v.entities(side), gid)) is Some && !(side
        == writer && gid == e.key) implies lookup(
        after,
        entity_key(lookup(v.entities(side), gid)->0, side),
    ) == Some(entity_entry(lookup(v.entities(side), gid)->0, side)) by {
        let other = lookup(v.entities(side), gid)->0;
        lemma_found(v.entities(side), gid);
        if entity_key(other, side) == a.key {
            law_entity_key_injective(other, side, e, writer);
        }
    }
    let w = v.entity_added(e, writer).0;
    assert(v.entities(true) == v.writers);
    assert(v.entities(false) == v.readers);
    assert(entities_listed(w.writers, after, true)) by {
        assert forall|gid: Gid| (#[trigger] lookup(w.writers, gid)) is Some implies lookup(
            after,
            entity_key(lookup(w.writers, gid)->0, true),
        ) == Some(entity_entry(lookup(w.writers, gid)->0, true)) by {
            if !(writer && gid == e.key) {
                assert(lookup(w.writers, gid) == lookup(v.entities(true), gid));
            }
        }
    }
    assert(entities_listed(w.readers, after, false)) by {
        assert forall|gid: Gid| (#[trigger] lookup(w.readers, gid)) is Some implies lookup(
            after,
            entity_key(lookup(w.readers, gid)->0, false),
        ) == Some(entity_entry(lookup(w.readers, gid)->0, false)) by {
            if !(!writer && gid == e.key) {
                assert(lookup(w.readers, gid) == lookup(v.entities(false), gid));
            }
        }
    }
    lemma_nodes_listed_other(v.nodes, v.admin, after, a.key);
    lemma_nodes_awaited_same(v.nodes, e, writer, v.nodes.len());
    lemma_same_nodes(v.nodes, w.nodes, after);
}

/// A Writer or a Reader that is removed leaves all well formed.
pub proof fn lemma_entity_removed(v: EntitiesView, gid: Gid, writer: bool)
    requires
        v.wf(),
    ensures
        v.entity_removed(gid, writer).0.wf(),
{
    if let Some(e) = lookup(v.entities(writer), gid) {
        lemma_found(v.entities(writer), gid);
        let key = entity_key(e, writer);
        let after = removed(v.admin, key);
        lemma_removed(v.admin, key);
        lemma_removed(v.entities(writer), gid);
        assert forall|g: Gid| #[trigger] found(v.participants, g) implies lookup(
            after,
            participant_key(g),
        ) == Some(participant_entry(g)) by {
            law_keys_disjoint(g, e, writer, g, Seq::empty());
        }
        assert forall|side: bool, g: Gid| (#[trigger] lookup(v.entities(side), g)) is Some && !(side
            == writer && g == gid) implies lookup(
            after,
            entity_key(lookup(v.entities(side), g)->0, side),
        ) == Some(entity_entry(lookup(v.entities(side), g)->0, side)) by {
            let other = lookup(v.entities(side), g)->0;
            lemma_found(v.entities(side), g);
            if entity_key(other, side) == key {
                law_entity_key_injective(other, side, e, writer);
            }
        }
        let w = v.entity_removed(gid, writer).0;
        assert(v.entities(true) == v.writers);
        assert(v.entities(false) == v.readers);
        assert(entities_listed(w.writers, after, true)) by {
            assert forall|g: Gid| (#[trigger] lookup(w.writers, g)) is Some implies lookup(
                after,
                entity_key(lookup(w.writers, g)->0, true),
            ) == Some(entity_entry(lookup(w.writers, g)->0, true)) by {
                assert(lookup(w.writers, g) == lookup(v.entities(true), g));
            }
        }
        assert(entities_listed(w.readers, after, false)) by {
            assert forall|g: Gid| (#[trigger] lookup(w.readers, g)) is Some implies lookup(
                after,
                entity_key(lookup(w.readers, g)->0, false),
            ) == Some(entity_entry(lookup(w.readers, g)->0, false)) by {
                assert(lookup(w.readers, g) == lookup(v.entities(false), g));
            }
        }
        lemma_nodes_listed_other(v.nodes, v.admin, after, key);
        lemma_nodes_released_same(v.nodes, gid, writer, v.nodes.len());
        lemma_same_nodes(v.nodes, w.nodes, after);
    }
}

// ---------------------------------------------------------------------------
// Nodes that come and go
// ---------------------------------------------------------------------------

/// Whether `key` is that of a node of `participant`.
pub open spec fn is_key_of(participant: Gid, key: Seq<char>) -> bool {
    exists|name: Seq<char>| key == #[trigger] node_key(participant, name)
}

/// The admin space is the same but for nodes of `participant`.
pub open spec fn same_but_for(
    participant: Gid,
    before: Seq<AdminView>,
    after: Seq<AdminView>,
) -> bool {
    forall|k: Seq<char>|
        !is_key_of(participant, k) ==> #[trigger] lookup(after, k) == lookup(before, k)
}

/// The admin space is the same but for nodes.
pub open spec fn same_but_for_nodes(before: Seq<AdminView>, after: Seq<AdminView>) -> bool {
    forall|k: Seq<char>|
        (forall|g: Gid| !#[trigger] is_key_of(g, k)) ==> #[trigger] lookup(after, k) == lookup(
            before,
            k,
        )
}

proof fn lemma_no_node_key(g: Gid, gid: Gid, e: EntityView, writer: bool)
    ensures
        !is_key_of(g, participant_key(gid)),
        !is_key_of(g, entity_key(e, writer)),
{
    if is_key_of(g, participant_key(gid)) {
        let name = choose|name: Seq<char>| participant_key(gid) == #[trigger] node_key(g, name);
        law_keys_disjoint(gid, e, writer, g, name);
    }
    if is_key_of(g, entity_key(e, writer)) {
        let name = choose|name: Seq<char>| entity_key(e, writer) == #[trigger] node_key(g, name);
        law_keys_disjoint(gid, e, writer, g, name);
    }
}

/// Participants, Writers and Readers stay listed when only nodes change.
proof fn lemma_listed_but_for_nodes(v: EntitiesView, after: Seq<AdminView>)
    requires
        v.wf(),
        same_but_for_nodes(v.admin, after),
    ensures
        participants_listed(v.participants, after),
        entities_listed(v.writers, after, true),
        entities_listed(v.readers, after, false),
{
    assert forall|gid: Gid| #[trigger] found(v.participants, gid) implies lookup(
        after,
        participant_key(gid),
    ) == Some(participant_entry(gid)) by {
        assert forall|g: Gid| !#[trigger] is_key_of(g, participant_key(gid)) by {
            lemma_no_node_key(g, gid, arbitrary::<EntityView>(), true);
        }
    }
    assert forall|gid: Gid| (#[trigger] lookup(v.writers, gid)) is Some implies lookup(
        after,
        entity_key(lookup(v.writers, gid)->0, true),
    ) == Some(entity_entry(lookup(v.writers, gid)->0, true)) by {
        assert forall|g: Gid| !#[trigger] is_key_of(
            g,
            entity_key(lookup(v.writers, gid)->0, true),
        ) by {
            lemma_no_node_key(g, gid, lookup(v.writers, gid)->0, true);
        }
    }
    assert forall|gid: Gid| (#[trigger] lookup(v.readers, gid)) is Some implies lookup(
        after,
        entity_key(lookup(v.readers, gid)->0, false),
    ) == Some(entity_entry(lookup(v.readers, gid)->0, false)) by {
        assert forall|g: Gid| !#[trigger] is_key_of(
            g,
            entity_key(lookup(v.readers, gid)->0, false),
        ) by {
            lemma_no_node_key(g, gid, lookup(v.readers, gid)->0, false);
        }
    }
}

/// The nodes of the other participants stay listed when only those of
/// `participant` change.
proof fn lemma_slots_listed_but_for(
    participant: Gid,
    g: Gid,
    slots: Seq<SlotView>,
    before: Seq<AdminView>,
    after: Seq<AdminView>,
)
    requires
        g != participant,
        slots_listed(g, slots, before),
        same_but_for(participant, before, after),
    ensures
        slots_listed(g, slots, after),
{
    assert forall|name: Seq<char>| #[trigger]
        found(slots, name) && name != ORPHAN_NODE_NAME@ implies lookup(after, node_key(g, name))
        == Some(node_entry(g, name)) by {
        if is_key_of(participant, node_key(g, name)) {
            let other = choose|other: Seq<char>| node_key(g, name) == #[trigger] node_key(
                participant,
                other,
            );
            law_node_key_injective(g, name, participant, other);
        }
    }
}

/// Whether `key` is that of one of the first `n` nodes.
pub open spec fn is_key_among(slots: Seq<SlotView>, key: Seq<char>, n: nat) -> bool {
    exists|s: int|
        0 <= s < n && key == node_key(
            (#[trigger] slots[s]).node.participant,
            slots[s].node.fullname(),
        )
}

/// Nodes that are gone leave the rest of the admin space as it was.
pub proof fn lemma_nodes_gone(slots: Seq<SlotView>, admin: Seq<AdminView>, n: nat)
    requires
        unique(admin),
        n <= slots.len(),
    ensures
        unique(nodes_gone(slots, admin, n).0),
        forall|k: Seq<char>|
            !is_key_among(slots, k, n) ==> #[trigger] lookup(nodes_gone(slots, admin, n).0, k)
                == lookup(admin, k),
    decreases n,
{
    if n > 0 {
        lemma_nodes_gone(slots, admin, (n - 1) as nat);
        let a = nodes_gone(slots, admin, (n - 1) as nat).0;
        let node = slots[n - 1].node;
        let key = node_key(node.participant, node.fullname());
        lemma_removed(a, key);
        assert forall|k: Seq<char>| !is_key_among(slots, k, n) implies #[trigger] lookup(
            nodes_gone(slots, admin, n).0,
            k,
        ) == lookup(admin, k) by {
            assert(slots[n - 1].node == node);
            if is_key_among(slots, k, (n - 1) as nat) {
                let s = choose|s: int|
                    0 <= s < n - 1 && k == node_key(
                        (#[trigger] slots[s]).node.participant,
                        slots[s].node.fullname(),
                    );
                assert(is_key_among(slots, k, n));
            }
            assert(k != key);
        }
    }
}

/// Nodes of one participant that are gone change nothing but its nodes.
proof fn lemma_nodes_gone_of(participant: Gid, slots: Seq<SlotView>, admin: Seq<AdminView>)
    requires
        unique(admin),
        forall|s: int|
            0 <= s < slots.len() ==> (#[trigger] slots[s]).node.participant == participant,
    ensures
        unique(nodes_gone(slots, admin, slots.len()).0),
        same_but_for(participant, admin, nodes_gone(slots, admin, slots.len()).0),
{
    let n = slots.len();
    lemma_nodes_gone(slots, admin, n);
    assert forall|k: Seq<char>| !is_key_of(participant, k) implies #[trigger] lookup(
        nodes_gone(slots, admin, n).0,
        k,
    ) == lookup(admin, k) by {
        if is_key_among(slots, k, n) {
            let s = choose|s: int|
                0 <= s < n && k == node_key(
                    (#[trigger] slots[s]).node.participant,
                    slots[s].node.fullname(),
                );
            assert(k == node_key(participant, slots[s].node.fullname()));
        }
    }
}

/// A participant that is removed leaves all well formed.
pub proof fn lemma_participant_removed(v: EntitiesView, gid: Gid)
    requires
        v.wf(),
    ensures
        v.participant_removed(gid).0.wf(),
{
    let w = v.participant_removed(gid).0;
    let key = participant_key(gid);
    let first = removed(v.admin, key);
    lemma_removed(v.admin, key);
    lemma_removed(v.participants, gid);
    lemma_removed(v.nodes, gid);
    lemma_removed_items(v.nodes, gid);
    // without the participant
    let u = EntitiesView { participants: removed(v.participants, gid), admin: first, ..v };
    assert(u.wf()) by {
        assert forall|g: Gid| #[trigger] found(u.participants, g) implies lookup(
            first,
            participant_key(g),
        ) == Some(participant_entry(g)) by {
            assert(found(v.participants, g) && g != gid);
            if participant_key(g) == key {
                law_participant_key_injective(g, gid);
            }
        }
        assert forall|g: Gid| (#[trigger] lookup(v.writers, g)) is Some implies lookup(
            first,
            entity_key(lookup(v.writers, g)->0, true),
        ) == Some(entity_entry(lookup(v.writers, g)->0, true)) by {
            law_keys_disjoint(gid, lookup(v.writers, g)->0, true, g, Seq::empty());
        }
        assert forall|g: Gid| (#[trigger] lookup(v.readers, g)) is Some implies lookup(
            first,
            entity_key(lookup(v.readers, g)->0, false),
        ) == Some(entity_entry(lookup(v.readers, g)->0, false)) by {
            law_keys_disjoint(gid, lookup(v.readers, g)->0, false, g, Seq::empty());
        }
        lemma_nodes_listed_other(v.nodes, v.admin, first, key);
    }
    // without its nodes
    if found(v.nodes, gid) {
        let pn = v.nodes[place(v.nodes, gid)];
        assert(slots_wf(pn.gid, pn.slots));
        assert forall|s: int| 0 <= s < pn.slots.len() implies (#[trigger] pn.slots[s]).node.participant
            == gid by {
            assert(slot_wf(pn.gid, pn.slots[s]));
        }
        lemma_nodes_gone_of(gid, pn.slots, first);
    }
    assert(same_but_for(gid, u.admin, w.admin));
    lemma_same_but_for_nodes(gid, u.admin, w.admin);
    lemma_listed_but_for_nodes(u, w.admin);
    assert forall|p: int| 0 <= p < w.nodes.len() implies slots_wf(
        (#[trigger] w.nodes[p]).gid,
        w.nodes[p].slots,
    ) && slots_listed(w.nodes[p].gid, w.nodes[p].slots, w.admin) by {
        let pn = w.nodes[p];
        assert(v.nodes.contains(pn));
        let q = choose|q: int| 0 <= q < v.nodes.len() && v.nodes[q] == pn;
        assert(slots_wf(v.nodes[q].gid, v.nodes[q].slots));
        assert(slots_listed(u.nodes[q].gid, u.nodes[q].slots, u.admin));
        lemma_slots_listed_but_for(gid, pn.gid, pn.slots, u.admin, w.admin);
    }
}

proof fn lemma_same_but_for_nodes(participant: Gid, before: Seq<AdminView>, after: Seq<AdminView>)
    requires
        same_but_for(participant, before, after),
    ensures
        same_but_for_nodes(before, after),
{
    assert forall|k: Seq<char>|
        (forall|g: Gid| !#[trigger] is_key_of(g, k)) implies #[trigger] lookup(after, k) == lookup(
        before,
        k,
    ) by {
        assert(!is_key_of(participant, k));
    }
}

/// Which nodes stay and which leave.
proof fn lemma_staying(slots: Seq<SlotView>, decls: Seq<NodeDeclView>, n: nat)
    requires
        unique(slots),
        n <= slots.len(),
    ensures
        unique(staying(slots, decls, n)),
        forall|i: int|
            0 <= i < staying(slots, decls, n).len() ==> stays(
                #[trigger] staying(slots, decls, n)[i],
                decls,
            ) && slots.take(n as int).contains(staying(slots, decls, n)[i]),
        forall|i: int|
            0 <= i < leaving(slots, decls, n).len() ==> !stays(
                #[trigger] leaving(slots, decls, n)[i],
                decls,
            ) && slots.contains(leaving(slots, decls, n)[i]),
    decreases n,
{
    if n > 0 {
        lemma_staying(slots, decls, (n - 1) as nat);
        let before = staying(slots, decls, (n - 1) as nat);
        let after = staying(slots, decls, n);
        let last = slots[n - 1];
        assert(slots.take(n as int)[n - 1] == last);
        assert forall|i: int| 0 <= i < before.len() implies slots.take(n as int).contains(
            #[trigger] before[i],
        ) && before[i].key() != last.key() by {
            let head = slots.take((n - 1) as int);
            assert(head.contains(before[i]));
            let j = choose|j: int| 0 <= j < head.len() && #[trigger] head[j] == before[i];
            assert(slots.take(n as int)[j] == before[i]);
            assert(slots[j] == before[i]);
            assert(slots[j].key() != slots[n - 1].key());
        }
        assert forall|i: int| 0 <= i < after.len() implies stays(#[trigger] after[i], decls)
            && slots.take(n as int).contains(after[i]) by {
            if i < before.len() {
                assert(after[i] == before[i]);
            }
        }
        assert(unique(after)) by {
            assert forall|i: int, j: int|
                #![trigger after[i], after[j]]
                0 <= i < j < after.len() implies after[i].key() != after[j].key() by {
                assert(after[i] == before[i]);
                if j < before.len() {
                    assert(after[j] == before[j]);
                }
            }
        }
        let lb = leaving(slots, decls, (n - 1) as nat);
        let la = leaving(slots, decls, n);
        assert forall|i: int| 0 <= i < la.len() implies !stays(#[trigger] la[i], decls)
            && slots.contains(la[i]) by {
            if i < lb.len() {
                assert(la[i] == lb[i]);
            }
        }
    }
}

/// What attaches endpoints to a node leaves it the same node.
proof fn lemma_attached_same(
    node: NodeView,
    gids: Seq<Gid>,
    entities: Seq<EntityView>,
    writer: bool,
    skip: Set<Gid>,
    n: nat,
)
    requires
        n <= gids.len(),
    ensures
        attached(node, gids, entities, writer, skip, n).0.participant == node.participant,
        attached(node, gids, entities, writer, skip, n).0.fullname() == node.fullname(),
        publishers_write(node) ==> publishers_write(
            attached(node, gids, entities, writer, skip, n).0,
        ),
    decreases n,
{
    if n > 0 {
        lemma_attached_same(node, gids, entities, writer, skip, (n - 1) as nat);
        let nd = attached(node, gids, entities, writer, skip, (n - 1) as nat).0;
        if publishers_write(node) {
            if let Some(e) = lookup(entities, gids[n - 1]) {
                lemma_updated_writes(nd, e, writer);
            }
            assert(publishers_write(
                nd.with_undiscovered(writer, nd.undiscovered(writer).push(gids[n - 1])),
            ));
        }
    }
}

/// The full name of a node is not the bare name of the orphan node.
pub proof fn lemma_full_name_is_no_orphan(namespace: Seq<char>, name: Seq<char>)
    ensures
        full_name(namespace, name) != ORPHAN_NODE_NAME@,
{
    reveal_strlit("/");
    reveal_strlit("_zenoh_orphan_endpoints_");
    let f = full_name(namespace, name);
    if namespace == "/"@ {
        assert(f[0] == '/');
    } else {
        assert(f[namespace.len() as int] == '/');
    }
    assert forall|i: int| 0 <= i < ORPHAN_NODE_NAME@.len() implies #[trigger] ORPHAN_NODE_NAME@[i]
        != '/' by {}
}

/// What holds while the nodes of a participant are declared.
pub open spec fn declaring_wf(participant: Gid, st: Declaring) -> bool {
    &&& unique(st.admin)
    &&& slots_wf(participant, st.slots)
    &&& slots_listed(participant, st.slots, st.admin)
}

/// A declared node leaves the nodes of its participant well formed, and all
/// others as they were.
pub proof fn lemma_declaring(
    st: Declaring,
    participant: Gid,
    decl: NodeDeclView,
    readers: Seq<EntityView>,
    writers: Seq<EntityView>,
    skip: Set<Gid>,
)
    requires
        declaring_wf(participant, st),
    ensures
        declaring_wf(participant, declaring(st, participant, decl, readers, writers, skip)),
        same_but_for(
            participant,
            st.admin,
            declaring(st, participant, decl, readers, writers, skip).admin,
        ),
{
    if !st.stopped && can_declare(st.slots, participant, decl) {
        let name = decl.key();
        lemma_full_name_is_no_orphan(decl.namespace, decl.name);
        lemma_with_node(st, participant, decl);
        let (slots, admin) = with_node(st.slots, st.admin, participant, decl);
        let i = place(slots, name);
        let node = node_declared(slots[i].node, decl, readers, writers, skip).0;
        lemma_attached_same(
            slots[i].node,
            decl.readers,
            readers,
            false,
            Set::empty(),
            decl.readers.len(),
        );
        let first = attached(
            slots[i].node,
            decl.readers,
            readers,
            false,
            Set::empty(),
            decl.readers.len(),
        ).0;
        lemma_attached_same(first, decl.writers, writers, true, skip, decl.writers.len());
        let slot = SlotView { name: slots[i].name, node };
        assert(slot_wf(participant, slots[i]));
        assert(slot_wf(participant, slot));
        lemma_update_same_key(slots, i, slot);
        lemma_stored(slots, slot);
        let after = slots.update(i, slot);
        assert forall|s: int| 0 <= s < after.len() implies slot_wf(
            participant,
            #[trigger] after[s],
        ) by {
            assert(slot_wf(participant, slots[s]));
        }
        assert forall|n: Seq<char>| #[trigger]
            found(after, n) && n != ORPHAN_NODE_NAME@ implies lookup(
            admin,
            node_key(participant, n),
        ) == Some(node_entry(participant, n)) by {
            assert(found(slots, n));
        }
    }
}

proof fn lemma_with_node(st: Declaring, participant: Gid, decl: NodeDeclView)
    requires
        declaring_wf(participant, st),
        decl.key() != ORPHAN_NODE_NAME@,
    ensures
        ({
            let (slots, admin) = with_node(st.slots, st.admin, participant, decl);
            &&& slots_wf(participant, slots)
            &&& found(slots, decl.key())
            &&& unique(admin)
            &&& slots_listed(participant, slots, admin)
            &&& same_but_for(participant, st.admin, admin)
        }),
{
    let name = decl.key();
    let (slots, admin) = with_node(st.slots, st.admin, participant, decl);
    if !found(st.slots, name) {
        let slot = SlotView { name, node: new_node(decl.namespace, decl.name, participant) };
        lemma_stored(st.slots, slot);
        assert(slots == stored(st.slots, slot));
        assert forall|s: int| 0 <= s < slots.len() implies slot_wf(
            participant,
            #[trigger] slots[s],
        ) by {
            if s < st.slots.len() {
                assert(slots[s] == st.slots[s]);
            }
        }
        let a = node_entry(participant, name);
        lemma_stored(st.admin, a);
        assert forall|n: Seq<char>| #[trigger]
            found(slots, n) && n != ORPHAN_NODE_NAME@ implies lookup(
            admin,
            node_key(participant, n),
        ) == Some(node_entry(participant, n)) by {
            if n != name {
                assert(found(st.slots, n));
                if node_key(participant, n) == a.key {
                    law_node_key_injective(participant, n, participant, name);
                }
            }
        }
        assert forall|k: Seq<char>| !is_key_of(participant, k) implies #[trigger] lookup(admin, k)
            == lookup(st.admin, k) by {
            assert(k != node_key(participant, name));
        }
    }
}

proof fn lemma_declaring_all(
    st: Declaring,
    participant: Gid,
    decls: Seq<NodeDeclView>,
    readers: Seq<EntityView>,
    writers: Seq<EntityView>,
    skip: Set<Gid>,
    n: nat,
)
    requires
        declaring_wf(participant, st),
        n <= decls.len(),
    ensures
        declaring_wf(
            participant,
            declaring_all(st, participant, decls, readers, writers, skip, n),
        ),
        same_but_for(
            participant,
            st.admin,
            declaring_all(st, participant, decls, readers, writers, skip, n).admin,
        ),
    decreases n,
{
    if n > 0 {
        lemma_declaring_all(st, participant, decls, readers, writers, skip, (n - 1) as nat);
        let before = declaring_all(st, participant, decls, readers, writers, skip, (n - 1) as nat);
        lemma_declaring(before, participant, decls[n - 1], readers, writers, skip);
        let after = declaring_all(st, participant, decls, readers, writers, skip, n);
        assert forall|k: Seq<char>| !is_key_of(participant, k) implies #[trigger] lookup(
            after.admin,
            k,
        ) == lookup(st.admin, k) by {
            assert(lookup(before.admin, k) == lookup(st.admin, k));
        }
    }
}

/// A place for the nodes of a participant leaves all well formed.
pub proof fn lemma_with_participant(
    nodes: Seq<ParticipantNodesView>,
    participant: Gid,
    admin: Seq<AdminView>,
)
    requires
        nodes_wf(nodes),
    ensures
        nodes_wf(with_participant(nodes, participant)),
        found(with_participant(nodes, participant), participant),
        nodes_listed(nodes, admin) ==> nodes_listed(with_participant(nodes, participant), admin),
{
    let after = with_participant(nodes, participant);
    if !found(nodes, participant) {
        let pn = ParticipantNodesView { gid: participant, slots: Seq::empty() };
        lemma_stored(nodes, pn);
        assert(after == stored(nodes, pn));
        assert forall|p: int| 0 <= p < after.len() implies slots_wf(
            (#[trigger] after[p]).gid,
            after[p].slots,
        ) by {
            if p < nodes.len() {
                assert(after[p] == nodes[p]);
            }
        }
        if nodes_listed(nodes, admin) {
            assert forall|p: int| 0 <= p < after.len() implies slots_listed(
                (#[trigger] after[p]).gid,
                after[p].slots,
                admin,
            ) by {
                if p < nodes.len() {
                    assert(after[p] == nodes[p]);
                }
            }
        }
    }
}

/// What holds before the nodes of a participant are declared, once those that
/// are no longer declared are gone.
pub proof fn lemma_retired(
    participant: Gid,
    slots: Seq<SlotView>,
    decls: Seq<NodeDeclView>,
    admin: Seq<AdminView>,
)
    requires
        unique(admin),
        slots_wf(participant, slots),
        slots_listed(participant, slots, admin),
    ensures
        ({
            let gone = leaving(slots, decls, slots.len());
            let after = nodes_gone(gone, admin, gone.len()).0;
            &&& unique(after)
            &&& same_but_for(participant, admin, after)
            &&& slots_wf(participant, staying(slots, decls, slots.len()))
            &&& slots_listed(participant, staying(slots, decls, slots.len()), after)
        }),
{
    let n = slots.len();
    let stay = staying(slots, decls, n);
    let gone = leaving(slots, decls, n);
    let after = nodes_gone(gone, admin, gone.len()).0;
    lemma_staying(slots, decls, n);
    assert(slots.take(n as int) =~= slots);
    assert forall|s: int| 0 <= s < gone.len() implies (#[trigger] gone[s]).node.participant
        == participant && gone[s].node.fullname() == gone[s].name by {
        let j = choose|j: int| 0 <= j < slots.len() && slots[j] == gone[s];
        assert(slot_wf(participant, slots[j]));
    }
    lemma_nodes_gone_of(participant, gone, admin);
    lemma_nodes_gone(gone, admin, gone.len());
    assert forall|s: int| 0 <= s < stay.len() implies slot_wf(participant, #[trigger] stay[s]) by {
        let j = choose|j: int| 0 <= j < slots.len() && slots[j] == stay[s];
        assert(slot_wf(participant, slots[j]));
    }
    assert forall|name: Seq<char>| #[trigger]
        found(stay, name) && name != ORPHAN_NODE_NAME@ implies lookup(
        after,
        node_key(participant, name),
    ) == Some(node_entry(participant, name)) by {
        let slot = stay[place(stay, name)];
        assert(stays(slot, decls));
        let j = choose|j: int| 0 <= j < slots.len() && slots[j] == slot;
        assert(slots[j].key() == name);
        assert(found(slots, name));
        let key = node_key(participant, name);
        if is_key_among(gone, key, gone.len()) {
            let s = choose|s: int|
                0 <= s < gone.len() && key == node_key(
                    (#[trigger] gone[s]).node.participant,
                    gone[s].node.fullname(),
                );
            law_node_key_injective(participant, name, participant, gone[s].name);
            assert(!stays(gone[s], decls));
            assert(false);
        }
        assert(lookup(after, key) == lookup(admin, key));
    }
}

/// A participant that declares its nodes leaves all well formed.
pub proof fn lemma_participant_declared(v: EntitiesView, info: ParticipantDeclView)
    requires
        v.wf(),
    ensures
        v.participant_declared(info).0.wf(),
{
    let w = v.participant_declared(info).0;
    let g = info.gid;
    let nodes = with_participant(v.nodes, g);
    lemma_with_participant(v.nodes, g, v.admin);
    let p = place(nodes, g);
    let slots = nodes[p].slots;
    assert(nodes[p].gid == g);
    assert(slots_wf(nodes[p].gid, slots));
    assert(slots_listed(nodes[p].gid, slots, v.admin));
    lemma_retired(g, slots, info.nodes, v.admin);
    let gone = leaving(slots, info.nodes, slots.len());
    let (admin, events) = nodes_gone(gone, v.admin, gone.len());
    let st = Declaring {
        slots: staying(slots, info.nodes, slots.len()),
        admin,
        events,
        stopped: false,
    };
    lemma_declaring_all(
        st,
        g,
        info.nodes,
        v.readers,
        v.writers,
        orphan_owned(v.nodes),
        info.nodes.len(),
    );
    assert forall|k: Seq<char>| !is_key_of(g, k) implies #[trigger] lookup(w.admin, k) == lookup(
        v.admin,
        k,
    ) by {
        assert(lookup(admin, k) == lookup(v.admin, k));
    }
    lemma_same_but_for_nodes(g, v.admin, w.admin);
    lemma_listed_but_for_nodes(v, w.admin);
    lemma_stored(v.declared, info);
    lemma_update_same_key(nodes, p, w.nodes[p]);
    assert forall|q: int| 0 <= q < w.nodes.len() implies slots_wf(
        (#[trigger] w.nodes[q]).gid,
        w.nodes[q].slots,
    ) && slots_listed(w.nodes[q].gid, w.nodes[q].slots, w.admin) by {
        if q != p {
            assert(w.nodes[q] == nodes[q]);
            assert(slots_wf(nodes[q].gid, nodes[q].slots));
            assert(slots_listed(nodes[q].gid, nodes[q].slots, v.admin));
            assert(nodes[q].key() != nodes[p].key());
            lemma_slots_listed_but_for(g, nodes[q].gid, nodes[q].slots, v.admin, w.admin);
        }
    }
}

// ---------------------------------------------------------------------------
// Writers that no node declares
// ---------------------------------------------------------------------------

/// What holds during a sweep.
pub open spec fn sweep_wf(st: Sweep) -> bool {
    &&& unique(st.admin)
    &&& nodes_wf(st.nodes)
    &&& nodes_listed(st.nodes, st.admin)
}

/// The orphan node of a participant leaves its nodes well formed.
pub proof fn lemma_with_orphan_node(participant: Gid, slots: Seq<SlotView>)
    requires
        slots_wf(participant, slots),
    ensures
        slots_wf(participant, with_orphan_node(slots, participant)),
        found(with_orphan_node(slots, participant), ORPHAN_NODE_NAME@),
        forall|name: Seq<char>|
            name != ORPHAN_NODE_NAME@ ==> #[trigger] found(
                with_orphan_node(slots, participant),
                name,
            ) == found(slots, name),
{
    if !found(slots, ORPHAN_NODE_NAME@) {
        let slot = SlotView {
            name: ORPHAN_NODE_NAME@,
            node: new_node("/"@, ORPHAN_NODE_NAME@, participant),
        };
        lemma_stored(slots, slot);
        let after = with_orphan_node(slots, participant);
        assert(after == stored(slots, slot));
        assert forall|s: int| 0 <= s < after.len() implies slot_wf(
            participant,
            #[trigger] after[s],
        ) by {
            if s < slots.len() {
                assert(after[s] == slots[s]);
            }
        }
    }
}

/// A Writer that is adopted leaves the nodes well formed.
pub proof fn lemma_adopted(st: Sweep, w: EntityView)
    requires
        sweep_wf(st),
    ensures
        sweep_wf(adopted(st, w)),
        same_but_for_nodes(st.admin, adopted(st, w).admin),
{
    let g = w.participant_key;
    let nodes = with_participant(st.nodes, g);
    lemma_with_participant(st.nodes, g, st.admin);
    let p = place(nodes, g);
    let inner = nodes[p].slots;
    assert(nodes[p].gid == g);
    assert(slots_wf(nodes[p].gid, inner));
    lemma_with_orphan_node(g, inner);
    let slots = with_orphan_node(inner, g);
    let s = place(slots, ORPHAN_NODE_NAME@);
    let node = updated(slots[s].node, w, true).0;
    let slot = SlotView { name: slots[s].name, node };
    lemma_update_same_key(slots, s, slot);
    lemma_stored(slots, slot);
    let after = slots.update(s, slot);
    assert(slot_wf(g, slots[s]));
    lemma_updated_writes(slots[s].node, w, true);
    assert(slots_wf(g, after)) by {
        assert forall|t: int| 0 <= t < after.len() implies slot_wf(g, #[trigger] after[t]) by {
            assert(slot_wf(g, slots[t]));
        }
    }
    let r = adopted(st, w);
    let a = node_entry(g, orphan_fullname());
    lemma_stored(st.admin, a);
    lemma_update_same_key(nodes, p, r.nodes[p]);
    assert forall|q: int| 0 <= q < r.nodes.len() implies slots_wf(
        (#[trigger] r.nodes[q]).gid,
        r.nodes[q].slots,
    ) && slots_listed(r.nodes[q].gid, r.nodes[q].slots, r.admin) by {
        let pn = r.nodes[q];
        assert(slots_wf(nodes[q].gid, nodes[q].slots));
        assert(slots_listed(nodes[q].gid, nodes[q].slots, st.admin));
        assert forall|name: Seq<char>| #[trigger]
            found(pn.slots, name) && name != ORPHAN_NODE_NAME@ implies lookup(
            r.admin,
            node_key(pn.gid, name),
        ) == Some(node_entry(pn.gid, name)) by {
            if q == p {
                assert(found(slots, name));
                assert(found(inner, name));
            }
            assert(found(nodes[q].slots, name));
            if node_key(pn.gid, name) == a.key {
                law_node_key_injective(pn.gid, name, g, orphan_fullname());
            }
        }
    }
    assert forall|k: Seq<char>|
        (forall|h: Gid| !#[trigger] is_key_of(h, k)) implies #[trigger] lookup(r.admin, k)
        == lookup(st.admin, k) by {
        assert(!is_key_of(g, k));
        assert(k != node_key(g, orphan_fullname()));
    }
}

/// Writers that are adopted leave the nodes well formed.
pub proof fn lemma_adopted_all(st: Sweep, writers: Seq<EntityView>, n: nat)
    requires
        sweep_wf(st),
        n <= writers.len(),
    ensures
        sweep_wf(adopted_all(st, writers, n)),
        same_but_for_nodes(st.admin, adopted_all(st, writers, n).admin),
    decreases n,
{
    if n > 0 {
        lemma_adopted_all(st, writers, (n - 1) as nat);
        let before = adopted_all(st, writers, (n - 1) as nat);
        lemma_adopted(before, writers[n - 1]);
        let after = adopted_all(st, writers, n);
        assert forall|k: Seq<char>|
            (forall|g: Gid| !#[trigger] is_key_of(g, k)) implies #[trigger] lookup(after.admin, k)
            == lookup(st.admin, k) by {
            assert(lookup(before.admin, k) == lookup(st.admin, k));
        }
    }
}

/// A sweep leaves all well formed.
pub proof fn lemma_swept(v: EntitiesView)
    requires
        v.wf(),
    ensures
        v.swept().0.wf(),
{
    let candidates = orphans(v.writers, v.nodes, v.writers.len());
    let st = Sweep { nodes: v.nodes, admin: v.admin, events: Seq::empty() };
    lemma_adopted_all(st, candidates, candidates.len());
    lemma_listed_but_for_nodes(v, v.swept().0.admin);
}

} // verus!
