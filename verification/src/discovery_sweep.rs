//! What the sweep for Writers that no node declares comes to: each of them is
//! published by the orphan node of its participant, and what that node publishes
//! by it for the first time is told.
use crate::admin_keys::{law_node_key_injective, node_key};
use crate::dds::EntityView;
use crate::discovery_laws::{law_plain_message_is_published, lemma_orphans};
use crate::discovery_model::{
    adopted, adopted_all, claimed, claimed_in, is_orphan, AdminView, node_at, orphan_fullname, orphans, slot_wf, slots_wf,
    with_orphan_node, with_participant, EntitiesView, EntityRefView, ParticipantNodesView,
    SlotView, Sweep, ORPHAN_NODE_NAME,
};
use crate::discovery_told::{
    appeared, endpoints_at, grown, is_news, law_endpoint_is_told, lemma_complete_grows, one_event,
    tells, tells_growth,
};
use crate::discovery_wf::{
    lemma_adopted, lemma_adopted_all, lemma_found, lemma_with_orphan_node, lemma_with_participant,
    sweep_wf,
};
use crate::events::EventView;
use crate::gid::Gid;
use crate::naming::{role_of, InterfaceKind, Part, RoleView};
use crate::node_info::{
    complete, needed, new_node, part_there, registered, serves, updated, EndpointView, NodeView,
};
use crate::table::{
    found, lemma_place, lemma_stored, lemma_update_same_key, lookup, place, stored, unique, HasKey,
};
use crate::text::has_part;
use vstd::prelude::*;

verus! {

/// Whether the orphan node of the participant publishes on the topic.
pub open spec fn publishes(
    nodes: Seq<ParticipantNodesView>,
    gid: Gid,
    name: Seq<char>,
) -> bool {
    complete(endpoints_at(nodes, gid, ORPHAN_NODE_NAME@), InterfaceKind::MsgPub, name)
}

/// The participants whose orphan node publishes on the topic now, and did not
/// before.
pub open spec fn newly(
    before: Seq<ParticipantNodesView>,
    after: Seq<ParticipantNodesView>,
    name: Seq<char>,
) -> Set<Gid> {
    Set::new(|gid: Gid| publishes(after, gid, name) && !publishes(before, gid, name))
}

/// How often an event about the topic comes.
pub open spec fn times_told(events: Seq<EventView>, name: Seq<char>) -> nat
    decreases events.len(),
{
    if events.len() == 0 {
        0
    } else {
        times_told(events.drop_last(), name) + if events.last().name == name {
            1nat
        } else {
            0nat
        }
    }
}

/// Whether the Writer publishes plain messages: its topic is below `rt/`, and is
/// none of those that make up an action.
pub open spec fn writes_messages(w: EntityView) -> bool {
    "rt/"@.is_prefix_of(w.topic_name) && !has_part(w.topic_name, "/_action/"@)
}

/// The event that the Writer gives when its orphan node publishes by it for the
/// first time.
pub open spec fn is_event_of(event: EventView, w: EntityView) -> bool {
    &&& event.discovered
    &&& event.kind == InterfaceKind::MsgPub
    &&& event.node == "/"@ + ORPHAN_NODE_NAME@
    &&& event.name == w.topic_name.skip(2)
    &&& event.dds_type == w.dds_type
}

/// Whether the orphan node of its participant has the Writer as a publisher.
pub open spec fn published(nodes: Seq<ParticipantNodesView>, w: EntityView) -> bool {
    exists|i: int|
        0 <= i < endpoints_at(nodes, w.participant_key, ORPHAN_NODE_NAME@).len() && is_publisher(
            #[trigger] endpoints_at(nodes, w.participant_key, ORPHAN_NODE_NAME@)[i],
            w,
        )
}

/// Whether the endpoint is the Writer as a publisher on its topic.
pub open spec fn is_publisher(ep: EndpointView, w: EntityView) -> bool {
    &&& ep.kind == InterfaceKind::MsgPub
    &&& ep.part == Part::Message
    &&& ep.name == w.topic_name.skip(2)
    &&& ep.gid == w.key
}

/// What one adoption changes.
proof fn lemma_adoption(st: Sweep, w: EntityView)
    requires
        sweep_wf(st),
        writes_messages(w),
    ensures
        ({
            let after = adopted(st, w);
            let g = w.participant_key;
            let name = w.topic_name.skip(2);
            &&& forall|h: Gid, n: Seq<char>|
                !(h == g && n == ORPHAN_NODE_NAME@) ==> #[trigger] node_at(after.nodes, h, n)
                    == node_at(st.nodes, h, n)
            &&& endpoints_at(st.nodes, g, ORPHAN_NODE_NAME@).is_prefix_of(
                endpoints_at(after.nodes, g, ORPHAN_NODE_NAME@),
            )
            &&& node_at(after.nodes, g, ORPHAN_NODE_NAME@) is Some
            &&& published(after.nodes, w)
            &&& publishes(after.nodes, g, name)
            &&& forall|n: Seq<char>|
                n != name ==> #[trigger] publishes(after.nodes, g, n) == publishes(st.nodes, g, n)
            &&& if publishes(st.nodes, g, name) {
                after.events == st.events
            } else {
                after.events.len() == st.events.len() + 1 && after.events.drop_last() == st.events
                    && is_event_of(after.events.last(), w)
            }
            &&& forall|i: int|
                endpoints_at(st.nodes, g, ORPHAN_NODE_NAME@).len() <= i < endpoints_at(
                    after.nodes,
                    g,
                    ORPHAN_NODE_NAME@,
                ).len() ==> is_publisher(
                    #[trigger] endpoints_at(after.nodes, g, ORPHAN_NODE_NAME@)[i],
                    w,
                )
            &&& forall|k: Seq<char>|
                k != node_key(g, orphan_fullname()) ==> #[trigger] lookup(after.admin, k)
                    == lookup(st.admin, k)
            &&& if node_at(st.nodes, g, ORPHAN_NODE_NAME@) is Some {
                after.admin == st.admin
            } else {
                lookup(after.admin, node_key(g, orphan_fullname())) matches Some(entry)
                    && entry.entity == EntityRefView::Node(g, orphan_fullname())
            }
        }),
{
    let g = w.participant_key;
    let name = w.topic_name.skip(2);
    let orphan = ORPHAN_NODE_NAME@;
    let after = adopted(st, w);
    let nodes = with_participant(st.nodes, g);
    lemma_with_participant(st.nodes, g, st.admin);
    let p = place(nodes, g);
    lemma_found(nodes, g);
    let inner = nodes[p].slots;
    assert(slots_wf(nodes[p].gid, inner));
    lemma_with_orphan_node(g, inner);
    let slots = with_orphan_node(inner, g);
    let s = place(slots, orphan);
    lemma_found(slots, orphan);
    assert(slot_wf(g, slots[s]));
    let old = slots[s].node;
    law_plain_message_is_published(w.topic_name);
    law_endpoint_is_told(old, w, true);
    let (new, event) = updated(old, w, true);
    let slot = SlotView { name: slots[s].name, node: new };
    let changed = slots.update(s, slot);
    lemma_update_same_key(slots, s, slot);
    lemma_stored(slots, slot);
    let row = ParticipantNodesView { gid: nodes[p].gid, slots: changed };
    assert(after.nodes == nodes.update(p, row));
    lemma_update_same_key(nodes, p, row);
    lemma_stored(nodes, row);
    assert(lookup(after.nodes, g) == Some(row));
    assert(node_at(after.nodes, g, orphan) == Some(new));
    if !found(st.nodes, g) {
        let fresh = ParticipantNodesView { gid: g, slots: Seq::empty() };
        assert(nodes == stored(st.nodes, fresh));
        lemma_stored(st.nodes, fresh);
        assert(nodes[st.nodes.len() as int].key() == g);
        lemma_place(nodes, st.nodes.len() as int);
        assert(inner == Seq::<SlotView>::empty());
    }
    if !found(inner, orphan) {
        let fresh = SlotView { name: orphan, node: new_node("/"@, orphan, g) };
        assert(slots == stored(inner, fresh));
        lemma_stored(inner, fresh);
        assert(slots[inner.len() as int].key() == orphan);
        lemma_place(slots, inner.len() as int);
    }
    assert(endpoints_at(st.nodes, g, orphan) =~= old.endpoints);
    assert forall|h: Gid, n: Seq<char>|
        !(h == g && n == orphan) implies #[trigger] node_at(after.nodes, h, n) == node_at(
        st.nodes,
        h,
        n,
    ) by {
        if h != g {
            assert(lookup(after.nodes, h) == lookup(nodes, h));
            assert(lookup(nodes, h) == lookup(st.nodes, h));
        } else {
            assert(lookup(changed, n) == lookup(slots, n));
            assert(lookup(slots, n) == lookup(inner, n));
        }
    }
    let i = choose|i: int|
        0 <= i < new.endpoints.len() && serves(
            #[trigger] new.endpoints[i],
            InterfaceKind::MsgPub,
            name,
            Part::Message,
        ) && new.endpoints[i].gid == w.key;
    assert(is_publisher(endpoints_at(after.nodes, g, orphan)[i], w));
    assert(published(after.nodes, w));
    assert forall|part: Part| needed(InterfaceKind::MsgPub, part) implies #[trigger]
        part_there(new.endpoints, InterfaceKind::MsgPub, name, part) by {
        assert(serves(new.endpoints[i], InterfaceKind::MsgPub, name, part));
    }
    assert(complete(new.endpoints, InterfaceKind::MsgPub, name));
    assert forall|n: Seq<char>| n != name implies #[trigger] publishes(after.nodes, g, n)
        == publishes(st.nodes, g, n) by {
        if publishes(st.nodes, g, n) {
            lemma_complete_grows(old.endpoints, new.endpoints, InterfaceKind::MsgPub, n);
        } else if publishes(after.nodes, g, n) {
            assert(complete(new.endpoints, InterfaceKind::MsgPub, n));
            assert(tells(one_event(event), true, new, InterfaceKind::MsgPub, n));
        }
    }
    if let Some(ev) = event {
        assert(one_event(event)[0] == ev);
        assert(appeared(old.endpoints, new, one_event(event)[0]));
        assert(after.events.drop_last() =~= st.events);
        assert(!publishes(st.nodes, g, name));
        assert(is_event_of(ev, w));
    } else if !publishes(st.nodes, g, name) {
        assert(complete(new.endpoints, InterfaceKind::MsgPub, name));
        assert(tells(one_event(event), true, new, InterfaceKind::MsgPub, name));
    }
    let entry = crate::discovery_model::node_entry(g, orphan_fullname());
    lemma_stored(st.admin, entry);
}

/// Whether the admin space shows the orphan node of the participant.
pub open spec fn shows_orphan_node(admin: Seq<AdminView>, gid: Gid) -> bool {
    lookup(admin, node_key(gid, orphan_fullname())) matches Some(entry) && entry.entity
        == EntityRefView::Node(gid, orphan_fullname())
}

/// Whether the key is that of the orphan node of the participant, which is new.
pub open spec fn is_new_orphan_of(
    before: Seq<ParticipantNodesView>,
    after: Seq<ParticipantNodesView>,
    gid: Gid,
    key: Seq<char>,
) -> bool {
    &&& key == node_key(gid, orphan_fullname())
    &&& node_at(before, gid, ORPHAN_NODE_NAME@) is None
    &&& node_at(after, gid, ORPHAN_NODE_NAME@) is Some
}

/// Whether the key is that of a new orphan node.
pub open spec fn is_new_orphan_key(
    before: Seq<ParticipantNodesView>,
    after: Seq<ParticipantNodesView>,
    key: Seq<char>,
) -> bool {
    exists|gid: Gid| #[trigger] is_new_orphan_of(before, after, gid, key)
}

/// The event is that of one of the first `n` Writers.
spec fn event_among(writers: Seq<EntityView>, n: nat, event: EventView) -> bool {
    exists|i: int| 0 <= i < n && is_event_of(event, #[trigger] writers[i])
}

/// The endpoint is one of the first `n` Writers of the participant.
spec fn publisher_among(writers: Seq<EntityView>, n: nat, g: Gid, ep: EndpointView) -> bool {
    exists|i: int|
        0 <= i < n && (#[trigger] writers[i]).participant_key == g && is_publisher(ep, writers[i])
}

#[verifier::rlimit(60)]
proof fn lemma_adoptions(st: Sweep, writers: Seq<EntityView>, n: nat)
    requires
        sweep_wf(st),
        n <= writers.len(),
        st.events.len() == 0,
        forall|i: int| 0 <= i < writers.len() ==> writes_messages(#[trigger] writers[i]),
    ensures
        ({
            let after = adopted_all(st, writers, n);
            &&& sweep_wf(after)
            &&& forall|h: Gid, m: Seq<char>|
                m != ORPHAN_NODE_NAME@ ==> #[trigger] node_at(after.nodes, h, m) == node_at(
                    st.nodes,
                    h,
                    m,
                )
            &&& forall|h: Gid|
                endpoints_at(st.nodes, h, ORPHAN_NODE_NAME@).is_prefix_of(
                    #[trigger] endpoints_at(after.nodes, h, ORPHAN_NODE_NAME@),
                )
            &&& forall|h: Gid, i: int|
                #![trigger endpoints_at(after.nodes, h, ORPHAN_NODE_NAME@)[i]]
                endpoints_at(st.nodes, h, ORPHAN_NODE_NAME@).len() <= i < endpoints_at(
                    after.nodes,
                    h,
                    ORPHAN_NODE_NAME@,
                ).len() ==> publisher_among(
                    writers,
                    n,
                    h,
                    endpoints_at(after.nodes, h, ORPHAN_NODE_NAME@)[i],
                )
            &&& forall|i: int|
                0 <= i < n ==> published(after.nodes, #[trigger] writers[i]) && publishes(
                    after.nodes,
                    writers[i].participant_key,
                    writers[i].topic_name.skip(2),
                )
            &&& forall|name: Seq<char>|
                (#[trigger] newly(st.nodes, after.nodes, name)).finite() && newly(
                    st.nodes,
                    after.nodes,
                    name,
                ).len() == times_told(after.events, name)
            &&& forall|k: int|
                0 <= k < after.events.len() ==> event_among(writers, n, #[trigger] after.events[k])
            &&& forall|h: Gid|
                node_at(st.nodes, h, ORPHAN_NODE_NAME@) is None && (#[trigger] node_at(
                    after.nodes,
                    h,
                    ORPHAN_NODE_NAME@,
                )) is Some ==> shows_orphan_node(after.admin, h)
            &&& forall|h: Gid|
                node_at(st.nodes, h, ORPHAN_NODE_NAME@) is Some ==> (#[trigger] node_at(
                    after.nodes,
                    h,
                    ORPHAN_NODE_NAME@,
                )) is Some
            &&& forall|k: Seq<char>|
                !is_new_orphan_key(st.nodes, after.nodes, k) ==> #[trigger] lookup(after.admin, k)
                    == lookup(st.admin, k)
        }),
    decreases n,
{
    if n == 0 {
        assert forall|name: Seq<char>|
            (#[trigger] newly(st.nodes, st.nodes, name)).finite() && newly(
                st.nodes,
                st.nodes,
                name,
            ).len() == times_told(st.events, name) by {
            assert(newly(st.nodes, st.nodes, name) =~= Set::<Gid>::empty());
        }
    } else {
        let m = (n - 1) as nat;
        lemma_adoptions(st, writers, m);
        let mid = adopted_all(st, writers, m);
        let after = adopted_all(st, writers, n);
        let w = writers[m as int];
        let g = w.participant_key;
        let wname = w.topic_name.skip(2);
        let orphan = ORPHAN_NODE_NAME@;
        lemma_adoption(mid, w);
        lemma_adopted(mid, w);
        assert forall|h: Gid| h != g implies #[trigger] endpoints_at(after.nodes, h, orphan)
            == endpoints_at(mid.nodes, h, orphan) by {
            assert(node_at(after.nodes, h, orphan) == node_at(mid.nodes, h, orphan));
        }
        assert forall|h: Gid| endpoints_at(st.nodes, h, orphan).is_prefix_of(
            #[trigger] endpoints_at(after.nodes, h, orphan),
        ) by {
            let a = endpoints_at(st.nodes, h, orphan);
            let b = endpoints_at(mid.nodes, h, orphan);
            let c = endpoints_at(after.nodes, h, orphan);
            assert(a.is_prefix_of(b) && b.is_prefix_of(c));
            assert(a =~= c.subrange(0, a.len() as int)) by {
                assert forall|i: int| 0 <= i < a.len() implies a[i] == c[i] by {
                    assert(a[i] == b[i] && b[i] == c[i]);
                }
            }
        }
        assert forall|h: Gid, i: int|
            #![trigger endpoints_at(after.nodes, h, orphan)[i]]
            endpoints_at(st.nodes, h, orphan).len() <= i < endpoints_at(
                after.nodes,
                h,
                orphan,
            ).len() implies publisher_among(
            writers,
            n,
            h,
            endpoints_at(after.nodes, h, orphan)[i],
        ) by {
            let b = endpoints_at(mid.nodes, h, orphan);
            let c = endpoints_at(after.nodes, h, orphan);
            if i < b.len() {
                assert(c[i] == b[i]);
                assert(publisher_among(writers, m, h, b[i]));
                let x = choose|x: int|
                    0 <= x < m && (#[trigger] writers[x]).participant_key == h && is_publisher(
                        b[i],
                        writers[x],
                    );
                assert(writers[x].participant_key == h);
            } else {
                assert(h == g);
                assert(is_publisher(c[i], writers[m as int]));
            }
        }
        assert forall|i: int| 0 <= i < n implies published(after.nodes, #[trigger] writers[i])
            && publishes(
            after.nodes,
            writers[i].participant_key,
            writers[i].topic_name.skip(2),
        ) by {
            if i < m {
                let h = writers[i].participant_key;
                let b = endpoints_at(mid.nodes, h, orphan);
                let c = endpoints_at(after.nodes, h, orphan);
                assert(published(mid.nodes, writers[i]));
                let x = choose|x: int|
                    0 <= x < b.len() && is_publisher(#[trigger] b[x], writers[i]);
                assert(b.is_prefix_of(c));
                assert(c[x] == b[x]);
                assert(is_publisher(endpoints_at(after.nodes, h, orphan)[x], writers[i]));
                lemma_complete_grows(b, c, InterfaceKind::MsgPub, writers[i].topic_name.skip(2));
            }
        }
        assert forall|name: Seq<char>|
            (#[trigger] newly(st.nodes, after.nodes, name)).finite() && newly(
                st.nodes,
                after.nodes,
                name,
            ).len() == times_told(after.events, name) by {
            let x = newly(st.nodes, mid.nodes, name);
            let y = newly(st.nodes, after.nodes, name);
            assert forall|h: Gid| h != g implies (#[trigger] publishes(after.nodes, h, name)
                == publishes(mid.nodes, h, name)) by {}
            if name == wname && !publishes(mid.nodes, g, wname) {
                assert(!publishes(st.nodes, g, wname)) by {
                    if publishes(st.nodes, g, wname) {
                        assert(endpoints_at(st.nodes, g, orphan).is_prefix_of(
                            endpoints_at(mid.nodes, g, orphan),
                        ));
                        lemma_complete_grows(
                            endpoints_at(st.nodes, g, orphan),
                            endpoints_at(mid.nodes, g, orphan),
                            InterfaceKind::MsgPub,
                            wname,
                        );
                    }
                }
                assert(!x.contains(g));
                assert(y =~= x.insert(g));
            } else {
                assert(publishes(after.nodes, g, name) == publishes(mid.nodes, g, name));
                assert(y =~= x);
            }
            if after.events.len() > mid.events.len() {
                assert(after.events.drop_last() == mid.events);
            }
        }
        assert forall|k: int| 0 <= k < after.events.len() implies event_among(
            writers,
            n,
            #[trigger] after.events[k],
        ) by {
            if k < mid.events.len() {
                assert(after.events[k] == mid.events[k]) by {
                    if after.events.len() > mid.events.len() {
                        assert(after.events.drop_last()[k] == after.events[k]);
                    }
                }
                assert(event_among(writers, m, mid.events[k]));
                let i = choose|i: int| 0 <= i < m && is_event_of(mid.events[k], #[trigger] writers[i]);
                assert(is_event_of(after.events[k], writers[i]));
            } else {
                assert(is_event_of(after.events[k], writers[m as int]));
            }
        }
        let key = node_key(g, orphan_fullname());
        assert forall|h: Gid|
            node_at(st.nodes, h, orphan) is None && (#[trigger] node_at(
                after.nodes,
                h,
                orphan,
            )) is Some implies shows_orphan_node(after.admin, h) by {
            if h != g {
                assert(node_at(mid.nodes, h, orphan) == node_at(after.nodes, h, orphan));
                assert(shows_orphan_node(mid.admin, h));
                if node_key(h, orphan_fullname()) == key {
                    law_node_key_injective(h, orphan_fullname(), g, orphan_fullname());
                }
            } else if node_at(mid.nodes, g, orphan) is Some {
                assert(shows_orphan_node(mid.admin, g));
            }
        }
        assert forall|k: Seq<char>|
            !is_new_orphan_key(st.nodes, after.nodes, k) implies #[trigger] lookup(after.admin, k)
            == lookup(st.admin, k) by {
            if is_new_orphan_key(st.nodes, mid.nodes, k) {
                let h = choose|h: Gid| #[trigger] is_new_orphan_of(st.nodes, mid.nodes, h, k);
                assert(node_at(after.nodes, h, orphan) is Some);
                assert(is_new_orphan_of(st.nodes, after.nodes, h, k));
            }
            if k == key && node_at(mid.nodes, g, orphan) is None {
                assert(node_at(st.nodes, g, orphan) is None);
                assert(is_new_orphan_of(st.nodes, after.nodes, g, k));
            }
        }
    }
}

/// Whether the node waits for the Writer, or publishes messages by it.
pub open spec fn node_claims(node: NodeView, gid: Gid) -> bool {
    ||| node.undiscovered_writers.contains(gid)
    ||| exists|i: int|
        0 <= i < node.endpoints.len() && (#[trigger] node.endpoints[i]).gid == gid
            && node.endpoints[i].kind == InterfaceKind::MsgPub
}

/// Whether a node of any participant does.
pub open spec fn claimed_anywhere(nodes: Seq<ParticipantNodesView>, gid: Gid) -> bool {
    exists|p: int, s: int|
        0 <= p < nodes.len() && 0 <= s < nodes[p].slots.len() && node_claims(
            (#[trigger] nodes[p].slots[s]).node,
            gid,
        )
}

proof fn lemma_claimed(nodes: Seq<ParticipantNodesView>, gid: Gid)
    ensures
        claimed(nodes, gid) == claimed_anywhere(nodes, gid),
{
    if claimed(nodes, gid) {
        let p = choose|p: int| 0 <= p < nodes.len() && claimed_in((#[trigger] nodes[p]).slots, gid);
        let slots = nodes[p].slots;
        let s = choose|s: int|
            0 <= s < slots.len() && crate::node_info::claims_writer(
                (#[trigger] slots[s]).node,
                gid,
            );
        assert(node_claims(nodes[p].slots[s].node, gid));
    }
    if claimed_anywhere(nodes, gid) {
        let (p, s) = choose|p: int, s: int|
            0 <= p < nodes.len() && 0 <= s < nodes[p].slots.len() && node_claims(
                (#[trigger] nodes[p].slots[s]).node,
                gid,
            );
        assert(crate::node_info::claims_writer(nodes[p].slots[s].node, gid));
        assert(claimed_in(nodes[p].slots, gid));
    }
}

/// What a sweep is made of.
proof fn lemma_sweep(v: EntitiesView) -> (candidates: Seq<EntityView>)
    requires
        v.wf(),
    ensures
        candidates == orphans(v.writers, v.nodes, v.writers.len()),
        forall|i: int|
            0 <= i < candidates.len() ==> writes_messages(#[trigger] candidates[i])
                && !claimed_anywhere(v.nodes, candidates[i].key) && v.writers.contains(
                candidates[i],
            ),
        forall|j: int|
            0 <= j < v.writers.len() && writes_messages(#[trigger] v.writers[j])
                && !claimed_anywhere(v.nodes, v.writers[j].key) ==> candidates.contains(
                v.writers[j],
            ),
        sweep_wf(Sweep { nodes: v.nodes, admin: v.admin, events: Seq::empty() }),
{
    let candidates = orphans(v.writers, v.nodes, v.writers.len());
    lemma_orphans(v.writers, v.nodes, v.writers.len());
    assert forall|i: int| 0 <= i < candidates.len() implies writes_messages(
        #[trigger] candidates[i],
    ) && !claimed_anywhere(v.nodes, candidates[i].key) && v.writers.contains(candidates[i]) by {
        assert(is_orphan(v.nodes, candidates[i]));
        lemma_claimed(v.nodes, candidates[i].key);
    }
    assert forall|j: int|
        0 <= j < v.writers.len() && writes_messages(#[trigger] v.writers[j]) && !claimed_anywhere(
            v.nodes,
            v.writers[j].key,
        ) implies candidates.contains(v.writers[j]) by {
        lemma_claimed(v.nodes, v.writers[j].key);
        assert(is_orphan(v.nodes, v.writers[j]));
    }
    candidates
}

/// A sweep lets every message Writer that no node claims be published by the orphan
/// node of its participant. Where that node did not publish on the topic before, it
/// is told.
pub proof fn law_sweep_publishes_orphans(v: EntitiesView, i: int)
    requires
        v.wf(),
        0 <= i < v.writers.len(),
        writes_messages(v.writers[i]),
        !claimed_anywhere(v.nodes, v.writers[i].key),
    ensures
        ({
            let (after, events) = v.swept();
            let w = v.writers[i];
            &&& published(after.nodes, w)
            &&& publishes(after.nodes, w.participant_key, w.topic_name.skip(2))
            &&& !publishes(v.nodes, w.participant_key, w.topic_name.skip(2)) ==> (exists|k: int|
                0 <= k < events.len() && (#[trigger] events[k]).discovered && events[k].kind
                    == InterfaceKind::MsgPub && events[k].node == "/"@ + ORPHAN_NODE_NAME@
                    && events[k].name == w.topic_name.skip(2))
        }),
{
    let candidates = lemma_sweep(v);
    let st = Sweep { nodes: v.nodes, admin: v.admin, events: Seq::empty() };
    lemma_adoptions(st, candidates, candidates.len());
    let (after, events) = v.swept();
    let w = v.writers[i];
    let name = w.topic_name.skip(2);
    assert(candidates.contains(w));
    let j = choose|j: int| 0 <= j < candidates.len() && candidates[j] == w;
    assert(published(after.nodes, candidates[j]));
    if !publishes(v.nodes, w.participant_key, name) {
        let fresh = newly(v.nodes, after.nodes, name);
        assert(fresh.contains(w.participant_key));
        assert(fresh.len() > 0) by {
            if fresh.len() == 0 {
                assert(fresh =~= Set::<Gid>::empty());
            }
        }
        lemma_told_somewhere(events, name);
        let k = choose|k: int| 0 <= k < events.len() && (#[trigger] events[k]).name == name;
        assert(event_among(candidates, candidates.len(), events[k]));
    }
}

proof fn lemma_told_somewhere(events: Seq<EventView>, name: Seq<char>)
    requires
        times_told(events, name) > 0,
    ensures
        exists|k: int| 0 <= k < events.len() && (#[trigger] events[k]).name == name,
    decreases events.len(),
{
    if events.len() > 0 {
        if events.last().name == name {
            assert(events[events.len() - 1].name == name);
        } else {
            let before = events.drop_last();
            lemma_told_somewhere(before, name);
            let k = choose|k: int| 0 <= k < before.len() && (#[trigger] before[k]).name == name;
            assert(events[k].name == name);
        }
    }
}

/// A sweep tells of a topic as often as there are participants whose orphan node
/// publishes on it for the first time.
pub proof fn law_sweep_tells_each_participant(v: EntitiesView, name: Seq<char>)
    requires
        v.wf(),
    ensures
        newly(v.nodes, v.swept().0.nodes, name).finite(),
        times_told(v.swept().1, name) == newly(v.nodes, v.swept().0.nodes, name).len(),
{
    let candidates = lemma_sweep(v);
    let st = Sweep { nodes: v.nodes, admin: v.admin, events: Seq::empty() };
    lemma_adoptions(st, candidates, candidates.len());
    assert(newly(st.nodes, v.swept().0.nodes, name).finite());
}

/// Whether the event is that of a message Writer that no node claims.
pub open spec fn is_orphan_event(v: EntitiesView, event: EventView) -> bool {
    exists|i: int|
        0 <= i < v.writers.len() && writes_messages(#[trigger] v.writers[i]) && !claimed_anywhere(
            v.nodes,
            v.writers[i].key,
        ) && is_event_of(event, v.writers[i])
}

/// Whether the endpoint is a message Writer of the participant that no node claims.
pub open spec fn is_orphan_publisher(v: EntitiesView, gid: Gid, ep: EndpointView) -> bool {
    exists|i: int|
        0 <= i < v.writers.len() && writes_messages(#[trigger] v.writers[i]) && !claimed_anywhere(
            v.nodes,
            v.writers[i].key,
        ) && v.writers[i].participant_key == gid && is_publisher(ep, v.writers[i])
}

/// A sweep does nothing else: it tells of nothing but message Writers that no node
/// claims, only orphan nodes grow, and by such Writers alone. New orphan nodes are
/// shown. All else stays as it was.
pub proof fn law_sweep_does_nothing_else(v: EntitiesView)
    requires
        v.wf(),
    ensures
        ({
            let (after, events) = v.swept();
            &&& forall|k: int|
                0 <= k < events.len() ==> is_orphan_event(v, #[trigger] events[k])
            &&& forall|gid: Gid, node: Seq<char>|
                node != ORPHAN_NODE_NAME@ ==> #[trigger] node_at(after.nodes, gid, node) == node_at(
                    v.nodes,
                    gid,
                    node,
                )
            &&& forall|gid: Gid|
                endpoints_at(v.nodes, gid, ORPHAN_NODE_NAME@).is_prefix_of(
                    #[trigger] endpoints_at(after.nodes, gid, ORPHAN_NODE_NAME@),
                )
            &&& forall|gid: Gid, i: int|
                #![trigger endpoints_at(after.nodes, gid, ORPHAN_NODE_NAME@)[i]]
                endpoints_at(v.nodes, gid, ORPHAN_NODE_NAME@).len() <= i < endpoints_at(
                    after.nodes,
                    gid,
                    ORPHAN_NODE_NAME@,
                ).len() ==> is_orphan_publisher(
                    v,
                    gid,
                    endpoints_at(after.nodes, gid, ORPHAN_NODE_NAME@)[i],
                )
            &&& forall|gid: Gid|
                node_at(v.nodes, gid, ORPHAN_NODE_NAME@) is None && (#[trigger] node_at(
                    after.nodes,
                    gid,
                    ORPHAN_NODE_NAME@,
                )) is Some ==> shows_orphan_node(after.admin, gid)
            &&& forall|k: Seq<char>|
                !is_new_orphan_key(v.nodes, after.nodes, k) ==> #[trigger] lookup(after.admin, k)
                    == lookup(v.admin, k)
            &&& after.participants == v.participants
            &&& after.writers == v.writers
            &&& after.readers == v.readers
            &&& after.declared == v.declared
        }),
{
    let candidates = lemma_sweep(v);
    let n = candidates.len();
    let st = Sweep { nodes: v.nodes, admin: v.admin, events: Seq::empty() };
    lemma_adoptions(st, candidates, n);
    let (after, events) = v.swept();
    assert forall|k: int| 0 <= k < events.len() implies is_orphan_event(v, #[trigger] events[k]) by {
        assert(event_among(candidates, n, events[k]));
        let j = choose|j: int| 0 <= j < n && is_event_of(events[k], #[trigger] candidates[j]);
        assert(v.writers.contains(candidates[j]));
        let i = choose|i: int| 0 <= i < v.writers.len() && v.writers[i] == candidates[j];
        assert(writes_messages(v.writers[i]));
    }
    assert forall|gid: Gid, i: int|
        #![trigger endpoints_at(after.nodes, gid, ORPHAN_NODE_NAME@)[i]]
        endpoints_at(v.nodes, gid, ORPHAN_NODE_NAME@).len() <= i < endpoints_at(
            after.nodes,
            gid,
            ORPHAN_NODE_NAME@,
        ).len() implies is_orphan_publisher(
        v,
        gid,
        endpoints_at(after.nodes, gid, ORPHAN_NODE_NAME@)[i],
    ) by {
        let ep = endpoints_at(after.nodes, gid, ORPHAN_NODE_NAME@)[i];
        assert(publisher_among(candidates, n, gid, ep));
        let j = choose|j: int|
            0 <= j < n && (#[trigger] candidates[j]).participant_key == gid && is_publisher(
                ep,
                candidates[j],
            );
        assert(v.writers.contains(candidates[j]));
        let x = choose|x: int| 0 <= x < v.writers.len() && v.writers[x] == candidates[j];
        assert(writes_messages(v.writers[x]));
    }
}

} // verus!
