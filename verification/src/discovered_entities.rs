//! Keeps track of the participants, Writers, Readers and nodes that were
//! discovered, and tells what that means for the routes.
//!
//! DDS discovery reports participants, Writers and Readers.
//! `ros_discovery_info` tells which node declares which of them. The two arrive
//! in any order: a node waits for the endpoints that it declares, and a message
//! Writer that no node declares gets the synthetic orphan node of its
//! participant as its owner, so that it is routed too.
use crate::admin_keys::{lemma_orphan_id_plain, participant_key_of};
use crate::dds::{DdsEntity, DdsParticipant};
use crate::description::{
    declared_entries, describe_node, describe_participant_decl, key_expr_text, nodes_entries,
    slot_entries,
};
use crate::discovery_model::{
    adopted, adopted_all, attached, claimed, claimed_in, declaring, declaring_all, entity_entry,
    leaving, no_entities, node_at, node_declared, nodes_awaited, nodes_gone, nodes_released,
    orphan_owned, orphan_owns_in, orphans, query_matches, query_result, slots_awaited,
    slots_listed, slots_released, slots_wf, staying, stays, sub_matches, wild_matches,
    with_participant, AdminQueryError, AdminView, Declaring, EntitiesView, EntityRefView,
    EntityValueView, ParticipantNodesView, SlotView, Sweep, ORPHAN_NODE_NAME,
};
use crate::discovery_wf::{
    declaring_wf, lemma_adopted, lemma_awaiting_slot, lemma_declaring, lemma_entity_added,
    lemma_entity_removed, lemma_participant_added, lemma_participant_declared,
    lemma_participant_removed, lemma_retired, lemma_swept, lemma_with_orphan_node,
    lemma_with_participant, sweep_wf,
};
use crate::events::{event_in, EventView, ROS2DiscoveryEvent};
use crate::gid::Gid;
use crate::gid_set::GidHashSet;
use crate::json::{remove_null_qos_values, trimmed, Json};
use crate::key_expr::{
    intersects, is_wild, join, key_text, keys_joined, literal, plain, rests_below, strip_prefix,
};
use crate::node_info::{claims_writer, owns_msg_writer, NodeInfo};
use crate::ros_discovery::{NodeEntitiesInfo, ParticipantEntitiesInfo};
use crate::table::{
    find, get, lemma_place, lemma_stored, lemma_views_push, lemma_views_update, lookup, place,
    removed, store, stored, take, unique, views, HasKey, Keyed,
};
use crate::text::{
    braced_of, contains, join2, join3, list_of, quote, same_text, starts_with, texts_of,
};
use vstd::prelude::*;

verus! {

/// A node under the name that it is filed by.
#[derive(Debug)]
struct NodeSlot {
    name: String,
    node: NodeInfo,
}

impl View for NodeSlot {
    type V = SlotView;

    closed spec fn view(&self) -> SlotView {
        SlotView { name: self.name@, node: self.node@ }
    }
}

impl Keyed for NodeSlot {
    type Query = String;

    fn is_at(&self, query: &String) -> (r: bool) {
        same_text(&self.name, query)
    }

    fn same_key(&self, other: &Self) -> (r: bool) {
        same_text(&self.name, &other.name)
    }
}

/// The nodes of a participant.
#[derive(Debug)]
struct ParticipantNodes {
    gid: Gid,
    slots: Vec<NodeSlot>,
}

impl View for ParticipantNodes {
    type V = ParticipantNodesView;

    closed spec fn view(&self) -> ParticipantNodesView {
        ParticipantNodesView { gid: self.gid, slots: views(self.slots@) }
    }
}

impl Keyed for ParticipantNodes {
    type Query = Gid;

    fn is_at(&self, query: &Gid) -> (r: bool) {
        self.gid == *query
    }

    fn same_key(&self, other: &Self) -> (r: bool) {
        self.gid == other.gid
    }
}

/// What an entry of the admin space refers to.
#[derive(Debug)]
pub enum EntityRef {
    Participant(Gid),
    Writer(Gid),
    Reader(Gid),
    Node(Gid, String),
}

impl View for EntityRef {
    type V = EntityRefView;

    open spec fn view(&self) -> EntityRefView {
        match *self {
            EntityRef::Participant(gid) => EntityRefView::Participant(gid),
            EntityRef::Writer(gid) => EntityRefView::Writer(gid),
            EntityRef::Reader(gid) => EntityRefView::Reader(gid),
            EntityRef::Node(gid, name) => EntityRefView::Node(gid, name@),
        }
    }
}

impl Clone for EntityRef {
    fn clone(&self) -> (r: Self)
        ensures
            r@ == self@,
    {
        match self {
            EntityRef::Participant(gid) => EntityRef::Participant(*gid),
            EntityRef::Writer(gid) => EntityRef::Writer(*gid),
            EntityRef::Reader(gid) => EntityRef::Reader(*gid),
            EntityRef::Node(gid, name) => EntityRef::Node(*gid, name.clone()),
        }
    }
}

/// An entry of the admin space.
#[derive(Debug)]
pub struct AdminEntry {
    pub key: String,
    pub entity: EntityRef,
}

impl View for AdminEntry {
    type V = AdminView;

    open spec fn view(&self) -> AdminView {
        AdminView { key: self.key@, entity: self.entity@ }
    }
}

impl Keyed for AdminEntry {
    type Query = String;

    fn is_at(&self, query: &String) -> (r: bool) {
        same_text(&self.key, query)
    }

    fn same_key(&self, other: &Self) -> (r: bool) {
        same_text(&self.key, &other.key)
    }
}

/// All that was discovered.
#[derive(Debug)]
pub struct DiscoveredEntities {
    participants: Vec<DdsParticipant>,
    writers: Vec<DdsEntity>,
    readers: Vec<DdsEntity>,
    ros_participant_info: Vec<ParticipantEntitiesInfo>,
    nodes_info: Vec<ParticipantNodes>,
    admin_space: Vec<AdminEntry>,
}

impl View for DiscoveredEntities {
    type V = EntitiesView;

    closed spec fn view(&self) -> EntitiesView {
        EntitiesView {
            participants: views(self.participants@),
            writers: views(self.writers@),
            readers: views(self.readers@),
            declared: views(self.ros_participant_info@),
            nodes: views(self.nodes_info@),
            admin: views(self.admin_space@),
        }
    }
}

impl ParticipantNodes {
    /// Hands a Writer (or a Reader) to the first node that waits for it.
    fn discover(&mut self, entity: &DdsEntity, writer: bool) -> (r: Option<ROS2DiscoveryEvent>)
        ensures
            final(self)@.gid == old(self)@.gid,
            (final(self)@.slots, event_in(r)) == slots_awaited(
                old(self)@.slots,
                entity@,
                writer,
            ),
    {
        let ghost before = self.slots@;
        let ghost slots = views(before);
        let n: usize = self.slots.len();
        let gid = entity.key();
        for i in 0..n
            invariant
                n == self.slots@.len(),
                *self == *old(self),
                before == self.slots@,
                slots == views(before),
                gid == entity@.key,
                forall|j: int|
                    0 <= j < i ==> !(#[trigger] slots[j]).node.undiscovered(writer).contains(gid),
        {
            assert(slots[i as int] == before[i as int]@);
            if self.slots[i].node.awaits(&gid, writer) {
                proof {
                    lemma_awaiting_slot(slots, gid, writer, slots.len());
                }
                let event = self.slots[i].node.discover(entity, writer);
                proof {
                    lemma_views_update(before, i as int, self.slots@[i as int]);
                    assert(self.slots@ =~= before.update(i as int, self.slots@[i as int]));
                }
                return event;
            }
        }
        proof {
            lemma_awaiting_slot(slots, gid, writer, slots.len());
        }
        None
    }

    /// Makes the nodes forget a Writer (or a Reader), up to the first event.
    fn release(&mut self, gid: &Gid, writer: bool) -> (r: Option<ROS2DiscoveryEvent>)
        ensures
            final(self)@.gid == old(self)@.gid,
            (final(self)@.slots, event_in(r)) == slots_released(
                old(self)@.slots,
                *gid,
                writer,
                old(self)@.slots.len(),
            ),
    {
        let ghost slots = views(self.slots@);
        let n: usize = self.slots.len();
        let mut event: Option<ROS2DiscoveryEvent> = None;
        for i in 0..n
            invariant
                n == self.slots@.len(),
                self.gid == old(self).gid,
                slots == views(old(self).slots@),
                (views(self.slots@), event_in(event)) == slots_released(
                    slots,
                    *gid,
                    writer,
                    i as nat,
                ),
        {
            if event.is_none() {
                let ghost before = self.slots@;
                assert(views(before)[i as int] == before[i as int]@);
                event =
                if writer {
                    self.slots[i].node.remove_writer(gid)
                } else {
                    self.slots[i].node.remove_reader(gid)
                };
                proof {
                    lemma_views_update(before, i as int, self.slots@[i as int]);
                    assert(self.slots@ =~= before.update(i as int, self.slots@[i as int]));
                }
            }
        }
        event
    }
}

impl Default for DiscoveredEntities {
    /// Nothing discovered yet.
    fn default() -> (r: DiscoveredEntities)
        ensures
            r@ == no_entities(),
            r@.wf(),
    {
        let r = DiscoveredEntities {
            participants: Vec::new(),
            writers: Vec::new(),
            readers: Vec::new(),
            ros_participant_info: Vec::new(),
            nodes_info: Vec::new(),
            admin_space: Vec::new(),
        };
        proof {
            assert(r@.participants =~= Seq::empty());
            assert(r@.writers =~= Seq::empty());
            assert(r@.readers =~= Seq::empty());
            assert(r@.declared =~= Seq::empty());
            assert(r@.nodes =~= Seq::empty());
            assert(r@.admin =~= Seq::empty());
        }
        r
    }
}

impl DiscoveredEntities {
    /// DDS reports a participant.
    pub fn add_participant(&mut self, participant: DdsParticipant)
        requires
            old(self)@.wf(),
        ensures
            final(self)@ == old(self)@.participant_added(participant@),
            final(self)@.wf(),
    {
        proof {
            lemma_participant_added(self@, participant@);
        }
        let entry = AdminEntry {
            key: participant_key_of(&participant.key),
            entity: EntityRef::Participant(participant.key),
        };
        store(&mut self.admin_space, entry);
        store(&mut self.participants, participant);
    }

    /// A participant is gone: its nodes are undiscovered.
    pub fn remove_participant(&mut self, gid: &Gid) -> (r: Vec<ROS2DiscoveryEvent>)
        requires
            old(self)@.wf(),
        ensures
            (final(self)@, views(r@)) == old(self)@.participant_removed(*gid),
            final(self)@.wf(),
    {
        proof {
            lemma_participant_removed(self@, *gid);
        }
        let mut events: Vec<ROS2DiscoveryEvent> = Vec::new();
        let _ = take(&mut self.participants, gid);
        let _ = take(&mut self.admin_space, &participant_key_of(gid));
        let ghost admin = views(self.admin_space@);
        assert(views(events@) =~= Seq::empty());
        if let Some(nodes) = take(&mut self.nodes_info, gid) {
            retire_nodes(nodes.slots, &mut self.admin_space, &mut events);
            assert(views(events@) =~= nodes_gone(nodes@.slots, admin, nodes@.slots.len()).1);
        }
        events
    }

    fn add_entity(&mut self, entity: DdsEntity, writer: bool) -> (r: Option<ROS2DiscoveryEvent>)
        requires
            old(self)@.wf(),
        ensures
            (final(self)@, event_in(r)) == old(self)@.entity_added(entity@, writer),
            final(self)@.wf(),
    {
        proof {
            lemma_entity_added(self@, entity@, writer);
        }
        // insert in admin space
        let reference = if writer {
            EntityRef::Writer(entity.key())
        } else {
            EntityRef::Reader(entity.key())
        };
        let entry = AdminEntry { key: entity.admin_key(writer), entity: reference };
        store(&mut self.admin_space, entry);

        // hand it to a node that waits for it
        let ghost nodes = views(self.nodes_info@);
        let n: usize = self.nodes_info.len();
        let mut event: Option<ROS2DiscoveryEvent> = None;
        for p in 0..n
            invariant
                n == self.nodes_info@.len(),
                nodes == old(self)@.nodes,
                (views(self.nodes_info@), event_in(event)) == nodes_awaited(
                    nodes,
                    entity@,
                    writer,
                    p as nat,
                ),
                self.participants == old(self).participants,
                self.writers == old(self).writers,
                self.readers == old(self).readers,
                self.ros_participant_info == old(self).ros_participant_info,
                self@.admin == stored(old(self)@.admin, entity_entry(entity@, writer)),
        {
            if event.is_none() {
                let ghost before = self.nodes_info@;
                assert(views(before)[p as int] == before[p as int]@);
                event = self.nodes_info[p].discover(&entity, writer);
                proof {
                    lemma_views_update(before, p as int, self.nodes_info@[p as int]);
                    assert(self.nodes_info@ =~= before.update(
                        p as int,
                        self.nodes_info@[p as int],
                    ));
                }
            }
        }

        // insert in the list
        if writer {
            store(&mut self.writers, entity);
        } else {
            store(&mut self.readers, entity);
        }
        event
    }

    /// DDS reports a Writer. The event comes when a node that waits for it gets
    /// the last part of an interface by it.
    pub fn add_writer(&mut self, writer: DdsEntity) -> (r: Option<ROS2DiscoveryEvent>)
        requires
            old(self)@.wf(),
        ensures
            (final(self)@, event_in(r)) == old(self)@.entity_added(writer@, true),
            final(self)@.wf(),
    {
        self.add_entity(writer, true)
    }

    /// DDS reports a Reader. The event comes when a node that waits for it gets
    /// the last part of an interface by it.
    pub fn add_reader(&mut self, reader: DdsEntity) -> (r: Option<ROS2DiscoveryEvent>)
        requires
            old(self)@.wf(),
        ensures
            (final(self)@, event_in(r)) == old(self)@.entity_added(reader@, false),
            final(self)@.wf(),
    {
        self.add_entity(reader, false)
    }

    /// The Writer with the identifier `gid`.
    pub fn get_writer(&self, gid: &Gid) -> (r: Option<&DdsEntity>)
        requires
            self@.wf(),
        ensures
            match r {
                Some(e) => lookup(self@.writers, *gid) == Some(e@),
                None => lookup(self@.writers, *gid) is None,
            },
    {
        get(&self.writers, gid)
    }

    /// The Reader with the identifier `gid`.
    pub fn get_reader(&self, gid: &Gid) -> (r: Option<&DdsEntity>)
        requires
            self@.wf(),
        ensures
            match r {
                Some(e) => lookup(self@.readers, *gid) == Some(e@),
                None => lookup(self@.readers, *gid) is None,
            },
    {
        get(&self.readers, gid)
    }

    fn remove_entity(&mut self, gid: &Gid, writer: bool) -> (r: Option<ROS2DiscoveryEvent>)
        requires
            old(self)@.wf(),
        ensures
            (final(self)@, event_in(r)) == old(self)@.entity_removed(*gid, writer),
            final(self)@.wf(),
    {
        proof {
            lemma_entity_removed(self@, *gid, writer);
        }
        let taken = if writer {
            take(&mut self.writers, gid)
        } else {
            take(&mut self.readers, gid)
        };
        let entity = match taken {
            Some(entity) => entity,
            None => {
                return None;
            },
        };
        let _ = take(&mut self.admin_space, &entity.admin_key(writer));

        // remove it from the nodes that might use it
        let ghost nodes = views(self.nodes_info@);
        let ghost admin = views(self.admin_space@);
        let n: usize = self.nodes_info.len();
        let mut event: Option<ROS2DiscoveryEvent> = None;
        for p in 0..n
            invariant
                n == self.nodes_info@.len(),
                nodes == old(self)@.nodes,
                (views(self.nodes_info@), event_in(event)) == nodes_released(
                    nodes,
                    *gid,
                    writer,
                    p as nat,
                ),
                self@ == (EntitiesView {
                    nodes: self@.nodes,
                    admin,
                    ..old(self)@.with_entities(
                        writer,
                        removed(old(self)@.entities(writer), *gid),
                    )
                }),
        {
            if event.is_none() {
                let ghost before = self.nodes_info@;
                assert(views(before)[p as int] == before[p as int]@);
                event = self.nodes_info[p].release(gid, writer);
                proof {
                    lemma_views_update(before, p as int, self.nodes_info@[p as int]);
                    assert(self.nodes_info@ =~= before.update(
                        p as int,
                        self.nodes_info@[p as int],
                    ));
                }
            }
        }
        event
    }

    /// A Writer is gone. The event comes when an interface loses a part by it.
    pub fn remove_writer(&mut self, gid: &Gid) -> (r: Option<ROS2DiscoveryEvent>)
        requires
            old(self)@.wf(),
        ensures
            (final(self)@, event_in(r)) == old(self)@.entity_removed(*gid, true),
            final(self)@.wf(),
    {
        self.remove_entity(gid, true)
    }

    /// A Reader is gone. The event comes when an interface loses a part by it.
    pub fn remove_reader(&mut self, gid: &Gid) -> (r: Option<ROS2DiscoveryEvent>)
        requires
            old(self)@.wf(),
        ensures
            (final(self)@, event_in(r)) == old(self)@.entity_removed(*gid, false),
            final(self)@.wf(),
    {
        self.remove_entity(gid, false)
    }
}

/// Takes nodes out of the admin space and collects the events of their end.
fn retire_nodes(
    slots: Vec<NodeSlot>,
    admin_space: &mut Vec<AdminEntry>,
    events: &mut Vec<ROS2DiscoveryEvent>,
)
    requires
        unique(views(old(admin_space)@)),
    ensures
        unique(views(final(admin_space)@)),
        views(final(admin_space)@) == nodes_gone(
            views(slots@),
            views(old(admin_space)@),
            slots@.len(),
        ).0,
        views(final(events)@) == views(old(events)@) + nodes_gone(
            views(slots@),
            views(old(admin_space)@),
            slots@.len(),
        ).1,
{
    let mut slots = slots;
    let ghost all = views(slots@);
    let ghost admin = views(admin_space@);
    let n: usize = slots.len();
    assert(views(events@) + Seq::<EventView>::empty() =~= views(events@));
    for i in 0..n
        invariant
            n == slots@.len(),
            n == all.len(),
            admin == views(old(admin_space)@),
            forall|j: int| i <= j < n ==> (#[trigger] slots@[j])@ == all[j],
            unique(views(admin_space@)),
            views(admin_space@) == nodes_gone(all, admin, i as nat).0,
            views(events@) == views(old(events)@) + nodes_gone(all, admin, i as nat).1,
    {
        assert(slots@[i as int]@ == all[i as int]);
        let key = slots[i].node.admin_key();
        let _ = take(admin_space, &key);
        let ghost collected = events@;
        let ghost rest = slots@;
        let mut ended = slots[i].node.remove_all_entities();
        let ghost more = ended@;
        events.append(&mut ended);
        proof {
            assert(slots@ =~= rest.update(i as int, slots@[i as int]));
            assert(views(collected + more) =~= views(collected) + views(more));
        }
    }
}

/// Splits off the nodes that do not stay.
fn split_leaving(slots: &mut Vec<NodeSlot>, ros_info: &ParticipantEntitiesInfo) -> (r: Vec<NodeSlot>)
    ensures
        views(final(slots)@) == staying(
            views(old(slots)@),
            ros_info@.nodes,
            old(slots)@.len(),
        ),
        views(r@) == leaving(views(old(slots)@), ros_info@.nodes, old(slots)@.len()),
{
    let ghost all = views(slots@);
    let ghost decls = ros_info@.nodes;
    let mut gone: Vec<NodeSlot> = Vec::new();
    let mut i: usize = 0;
    let ghost mut k: nat = 0;
    proof {
        assert(views(gone@) =~= Seq::empty());
        assert(views(slots@) =~= staying(all, decls, 0) + all.skip(0));
    }
    while i < slots.len()
        invariant
            i <= slots@.len(),
            all == views(old(slots)@),
            decls == ros_info@.nodes,
            k <= all.len(),
            staying(all, decls, k).len() == i,
            slots@.len() == i + (all.len() - k),
            views(slots@) == staying(all, decls, k) + all.skip(k as int),
            views(gone@) == leaving(all, decls, k),
        decreases slots@.len() - i,
    {
        let ghost before = slots@;
        let ghost head = staying(all, decls, k);
        proof {
            assert(views(before)[i as int] == before[i as int]@);
            assert((head + all.skip(k as int))[i as int] == all[k as int]);
        }
        let stay = same_text(&slots[i].name, ORPHAN_NODE_NAME)
            || ros_info.node_entities_info_seq.contains_key(&slots[i].name);
        if stay {
            i = i + 1;
            proof {
                assert(head.push(all[k as int]) + all.skip(k as int + 1) =~= head + all.skip(k as int));
                k = k + 1;
            }
        } else {
            let slot = slots.remove(i);
            let ghost lost = gone@;
            proof {
                assert(views(slots@) =~= views(before).remove(i as int));
                assert((head + all.skip(k as int)).remove(i as int) =~= head + all.skip(k as int + 1));
                lemma_views_push(lost, slot);
                k = k + 1;
            }
            gone.push(slot);
        }
    }
    proof {
        assert(all.skip(k as int) =~= Seq::empty());
        assert(staying(all, decls, k) + all.skip(k as int) =~= staying(all, decls, k));
    }
    gone
}

impl NodeInfo {
    /// Attaches the declared Writers (or Readers) to the node.
    fn attach(
        &mut self,
        gids: &crate::ros_discovery::GidSet,
        entities: &Vec<DdsEntity>,
        writer: bool,
        skip: &GidHashSet,
    ) -> (r: Vec<ROS2DiscoveryEvent>)
        requires
            unique(views(entities@)),
        ensures
            (final(self)@, views(r@)) == attached(
                old(self)@,
                gids@,
                views(entities@),
                writer,
                skip@,
                gids@.len(),
            ),
    {
        let mut events: Vec<ROS2DiscoveryEvent> = Vec::new();
        let n: usize = gids.len();
        assert(views(events@) =~= Seq::empty());
        for i in 0..n
            invariant
                n == gids@.len(),
                unique(views(entities@)),
                (self@, views(events@)) == attached(
                    old(self)@,
                    gids@,
                    views(entities@),
                    writer,
                    skip@,
                    i as nat,
                ),
        {
            let gid = gids.get(i);
            if !skip.contains(&gid) {
                match get(entities, &gid) {
                    Some(entity) => {
                        let event = if writer {
                            self.update_with_writer(entity)
                        } else {
                            self.update_with_reader(entity)
                        };
                        if let Some(event) = event {
                            proof {
                                lemma_views_push(events@, event);
                            }
                            events.push(event);
                        }
                    },
                    None => {
                        self.await_entity(gid, writer);
                    },
                }
            }
        }
        events
    }
}

/// The Writers that orphan nodes own.
fn orphan_writers_of(nodes_info: &Vec<ParticipantNodes>) -> (r: GidHashSet)
    ensures
        r@ == orphan_owned(views(nodes_info@)),
{
    let ghost nodes = views(nodes_info@);
    let mut owned = GidHashSet::new();
    for p in 0..nodes_info.len()
        invariant
            nodes == views(nodes_info@),
            forall|gid: Gid| #[trigger]
                owned@.contains(gid) == exists|q: int|
                    0 <= q < p && orphan_owns_in((#[trigger] nodes[q]).slots, gid),
    {
        let ghost before = owned@;
        let ghost slots = nodes[p as int].slots;
        assert(nodes[p as int] == nodes_info@[p as int]@);
        let inner = &nodes_info[p].slots;
        for s in 0..inner.len()
            invariant
                slots == views(inner@),
                forall|gid: Gid| #[trigger]
                    owned@.contains(gid) == (before.contains(gid) || exists|t: int|
                        0 <= t < s && (#[trigger] slots[t]).name == ORPHAN_NODE_NAME@
                            && owns_msg_writer(slots[t].node, gid)),
        {
            let slot = &inner[s];
            assert(slots[s as int] == slot@);
            let ghost so_far = owned@;
            if same_text(&slot.name, ORPHAN_NODE_NAME) {
                slot.node.collect_msg_writers(&mut owned);
            }
            assert forall|gid: Gid| #[trigger]
                owned@.contains(gid) == (before.contains(gid) || exists|t: int|
                    0 <= t < s + 1 && (#[trigger] slots[t]).name == ORPHAN_NODE_NAME@
                        && owns_msg_writer(slots[t].node, gid)) by {
                if so_far.contains(gid) && !before.contains(gid) {
                    let t = choose|t: int|
                        0 <= t < s && (#[trigger] slots[t]).name == ORPHAN_NODE_NAME@
                            && owns_msg_writer(slots[t].node, gid);
                    assert(slots[t].name == ORPHAN_NODE_NAME@);
                }
            }
        }
        assert forall|gid: Gid| #[trigger]
            owned@.contains(gid) == exists|q: int|
                0 <= q < p + 1 && orphan_owns_in((#[trigger] nodes[q]).slots, gid) by {
            if before.contains(gid) {
                let q = choose|q: int|
                    0 <= q < p && orphan_owns_in((#[trigger] nodes[q]).slots, gid);
                assert(orphan_owns_in(nodes[q].slots, gid));
            }
            if owned@.contains(gid) && !before.contains(gid) {
                assert(orphan_owns_in(nodes[p as int].slots, gid));
            }
        }
    }
    assert(owned@ =~= orphan_owned(nodes));
    owned
}

/// The Writers that nodes have declared, as far as messages go.
fn claimed_writers_of(nodes_info: &Vec<ParticipantNodes>) -> (r: GidHashSet)
    ensures
        forall|gid: Gid| #[trigger] r@.contains(gid) == claimed(views(nodes_info@), gid),
{
    let ghost nodes = views(nodes_info@);
    let mut claims = GidHashSet::new();
    for p in 0..nodes_info.len()
        invariant
            nodes == views(nodes_info@),
            forall|gid: Gid| #[trigger]
                claims@.contains(gid) == exists|q: int|
                    0 <= q < p && claimed_in((#[trigger] nodes[q]).slots, gid),
    {
        let ghost before = claims@;
        let ghost slots = nodes[p as int].slots;
        assert(nodes[p as int] == nodes_info@[p as int]@);
        let inner = &nodes_info[p].slots;
        for s in 0..inner.len()
            invariant
                slots == views(inner@),
                forall|gid: Gid| #[trigger]
                    claims@.contains(gid) == (before.contains(gid) || exists|t: int|
                        0 <= t < s && claims_writer((#[trigger] slots[t]).node, gid)),
        {
            let slot = &inner[s];
            assert(slots[s as int] == slot@);
            let ghost so_far = claims@;
            slot.node.collect_awaited_writers(&mut claims);
            slot.node.collect_msg_writers(&mut claims);
            assert forall|gid: Gid| #[trigger]
                claims@.contains(gid) == (before.contains(gid) || exists|t: int|
                    0 <= t < s + 1 && claims_writer((#[trigger] slots[t]).node, gid)) by {
                if so_far.contains(gid) && !before.contains(gid) {
                    let t = choose|t: int|
                        0 <= t < s && claims_writer((#[trigger] slots[t]).node, gid);
                    assert(claims_writer(slots[t].node, gid));
                }
            }
        }
        assert forall|gid: Gid| #[trigger]
            claims@.contains(gid) == exists|q: int|
                0 <= q < p + 1 && claimed_in((#[trigger] nodes[q]).slots, gid) by {
            if before.contains(gid) {
                let q = choose|q: int| 0 <= q < p && claimed_in((#[trigger] nodes[q]).slots, gid);
                assert(claimed_in(nodes[q].slots, gid));
            }
            if claims@.contains(gid) && !before.contains(gid) {
                assert(claimed_in(nodes[p as int].slots, gid));
            }
        }
    }
    claims
}

/// Makes a place for the nodes of a participant, and tells where it is.
fn place_of_participant(nodes_info: &mut Vec<ParticipantNodes>, gid: Gid) -> (r: usize)
    requires
        unique(views(old(nodes_info)@)),
    ensures
        views(final(nodes_info)@) == with_participant(views(old(nodes_info)@), gid),
        r < final(nodes_info)@.len(),
        r == place(views(final(nodes_info)@), gid),
        final(nodes_info)@[r as int]@.gid == gid,
{
    match find(nodes_info, &gid) {
        Some(p) => p,
        None => {
            let slots: Vec<NodeSlot> = Vec::new();
            let ghost before = nodes_info@;
            let pn = ParticipantNodes { gid, slots };
            proof {
                assert(views(slots@) =~= Seq::empty());
                lemma_views_push(before, pn);
                lemma_stored(views(before), pn@);
                lemma_place(views(before).push(pn@), before.len() as int);
            }
            nodes_info.push(pn);
            nodes_info.len() - 1
        },
    }
}

/// Takes note of a declared node: tells whether its name can stand in a key
/// expression.
fn declare_node(
    slots: &mut Vec<NodeSlot>,
    admin_space: &mut Vec<AdminEntry>,
    events: &mut Vec<ROS2DiscoveryEvent>,
    participant: Gid,
    ros_node_info: &NodeEntitiesInfo,
    readers: &Vec<DdsEntity>,
    writers: &Vec<DdsEntity>,
    orphan_writers: &GidHashSet,
) -> (r: bool)
    requires
        unique(views(readers@)),
        unique(views(writers@)),
        declaring_wf(participant, declaring_state(old(slots)@, old(admin_space)@, old(events)@, false)),
    ensures
        declaring_state(final(slots)@, final(admin_space)@, final(events)@, !r) == declaring(
            declaring_state(old(slots)@, old(admin_space)@, old(events)@, false),
            participant,
            ros_node_info@,
            views(readers@),
            views(writers@),
            orphan_writers@,
        ),
        declaring_wf(
            participant,
            declaring_state(final(slots)@, final(admin_space)@, final(events)@, !r),
        ),
{
    let ghost st = declaring_state(slots@, admin_space@, events@, false);
    proof {
        lemma_declaring(
            st,
            participant,
            ros_node_info@,
            views(readers@),
            views(writers@),
            orphan_writers@,
        );
    }
    let name = ros_node_info.full_name();
    let i: usize = match find(slots, &name) {
        Some(i) => i,
        None => {
            let created = NodeInfo::create(
                ros_node_info.node_namespace.clone(),
                ros_node_info.node_name.clone(),
                participant,
            );
            match created {
                Ok(node) => {
                    let entry = AdminEntry {
                        key: node.admin_key(),
                        entity: EntityRef::Node(participant, node.fullname().to_owned()),
                    };
                    store(admin_space, entry);
                    let ghost before = slots@;
                    let slot = NodeSlot { name, node };
                    proof {
                        lemma_views_push(before, slot);
                        lemma_stored(views(before), slot@);
                        lemma_place(views(before).push(slot@), before.len() as int);
                    }
                    slots.push(slot);
                    slots.len() - 1
                },
                Err(_) => {
                    return false;
                },
            }
        },
    };
    let ghost before = slots@;
    let ghost collected = events@;
    assert(views(before)[i as int] == before[i as int]@);
    let mut more = DiscoveredEntities::update_node_info(
        &mut slots[i].node,
        ros_node_info,
        readers,
        writers,
        orphan_writers,
    );
    let ghost added = more@;
    events.append(&mut more);
    proof {
        lemma_views_update(before, i as int, slots@[i as int]);
        assert(slots@ =~= before.update(i as int, slots@[i as int]));
        assert(views(collected + added) =~= views(collected) + views(added));
    }
    true
}

/// The specification value of what declared nodes change.
spec fn declaring_state(
    slots: Seq<NodeSlot>,
    admin_space: Seq<AdminEntry>,
    events: Seq<ROS2DiscoveryEvent>,
    stopped: bool,
) -> Declaring {
    Declaring { slots: views(slots), admin: views(admin_space), events: views(events), stopped }
}

/// The specification value of what a sweep changes.
spec fn sweep_state(
    nodes_info: Seq<ParticipantNodes>,
    admin_space: Seq<AdminEntry>,
    events: Seq<ROS2DiscoveryEvent>,
) -> Sweep {
    Sweep { nodes: views(nodes_info), admin: views(admin_space), events: views(events) }
}

/// Gives a Writer to the orphan node of its participant.
fn adopt(
    nodes_info: &mut Vec<ParticipantNodes>,
    admin_space: &mut Vec<AdminEntry>,
    events: &mut Vec<ROS2DiscoveryEvent>,
    writer: &DdsEntity,
)
    requires
        sweep_wf(sweep_state(old(nodes_info)@, old(admin_space)@, old(events)@)),
    ensures
        sweep_state(final(nodes_info)@, final(admin_space)@, final(events)@) == adopted(
            sweep_state(old(nodes_info)@, old(admin_space)@, old(events)@),
            writer@,
        ),
        sweep_wf(sweep_state(final(nodes_info)@, final(admin_space)@, final(events)@)),
{
    let ghost st = sweep_state(nodes_info@, admin_space@, events@);
    let participant = writer.participant_key();
    proof {
        lemma_adopted(st, writer@);
        lemma_with_participant(st.nodes, participant, st.admin);
    }
    let p: usize = place_of_participant(nodes_info, participant);
    let ghost placed = nodes_info@;
    let ghost inner = views(placed[p as int].slots@);
    proof {
        assert(views(placed)[p as int] == placed[p as int]@);
        assert(slots_wf(views(placed)[p as int].gid, inner));
        lemma_with_orphan_node(participant, inner);
    }
    let mut slots: Vec<NodeSlot> = Vec::new();
    std::mem::swap(&mut slots, &mut nodes_info[p].slots);
    let s: usize = match find(&slots, &ORPHAN_NODE_NAME.to_owned()) {
        Some(s) => s,
        None => {
            proof {
                lemma_orphan_id_plain(participant);
            }
            let created = NodeInfo::create(
                "/".to_owned(),
                ORPHAN_NODE_NAME.to_owned(),
                participant,
            );
            match created {
                Ok(node) => {
                    let entry = AdminEntry {
                        key: node.admin_key(),
                        entity: EntityRef::Node(participant, node.fullname().to_owned()),
                    };
                    store(admin_space, entry);
                    let ghost before = slots@;
                    let slot = NodeSlot { name: ORPHAN_NODE_NAME.to_owned(), node };
                    proof {
                        lemma_views_push(before, slot);
                        lemma_stored(views(before), slot@);
                        lemma_place(views(before).push(slot@), before.len() as int);
                    }
                    slots.push(slot);
                    slots.len() - 1
                },
                Err(_) => {
                    return ;
                },
            }
        },
    };
    let ghost before = slots@;
    assert(views(before)[s as int] == before[s as int]@);
    let event = slots[s].node.update_with_writer(writer);
    proof {
        lemma_views_update(before, s as int, slots@[s as int]);
        assert(slots@ =~= before.update(s as int, slots@[s as int]));
    }
    if let Some(event) = event {
        proof {
            lemma_views_push(events@, event);
        }
        events.push(event);
    }
    std::mem::swap(&mut slots, &mut nodes_info[p].slots);
    proof {
        lemma_views_update(placed, p as int, nodes_info@[p as int]);
        assert(nodes_info@ =~= placed.update(p as int, nodes_info@[p as int]));
    }
}

impl DiscoveredEntities {
    /// Takes note of what a node declares. A Writer that is owned by an orphan
    /// node is passed over, and an endpoint that DDS has not reported yet is
    /// waited for.
    pub fn update_node_info(
        node: &mut NodeInfo,
        ros_node_info: &NodeEntitiesInfo,
        readers: &Vec<DdsEntity>,
        writers: &Vec<DdsEntity>,
        orphan_writers: &GidHashSet,
    ) -> (r: Vec<ROS2DiscoveryEvent>)
        requires
            unique(views(readers@)),
            unique(views(writers@)),
        ensures
            (final(node)@, views(r@)) == node_declared(
                old(node)@,
                ros_node_info@,
                views(readers@),
                views(writers@),
                orphan_writers@,
            ),
    {
        let mut events = node.attach(
            &ros_node_info.reader_gid_seq,
            readers,
            false,
            &GidHashSet::new(),
        );
        let mut more = node.attach(
            &ros_node_info.writer_gid_seq,
            writers,
            true,
            orphan_writers,
        );
        let ghost first = events@;
        let ghost second = more@;
        events.append(&mut more);
        assert(views(first + second) =~= views(first) + views(second));
        events
    }

    /// A participant declares its nodes. Those that it no longer declares are
    /// undiscovered, but for its orphan node. A Writer that is owned by an orphan
    /// node stays there, whoever declares it now.
    pub fn update_participant_info(&mut self, ros_info: ParticipantEntitiesInfo) -> (r: Vec<
        ROS2DiscoveryEvent,
    >)
        requires
            old(self)@.wf(),
        ensures
            (final(self)@, views(r@)) == old(self)@.participant_declared(ros_info@),
            final(self)@.wf(),
    {
        let ghost v = self@;
        let ghost decls = ros_info@.nodes;
        proof {
            lemma_participant_declared(v, ros_info@);
            lemma_with_participant(v.nodes, ros_info.gid, v.admin);
        }
        let orphan_writers = orphan_writers_of(&self.nodes_info);
        let p: usize = place_of_participant(&mut self.nodes_info, ros_info.gid);
        let ghost placed = self.nodes_info@;
        let ghost inner = views(placed[p as int].slots@);
        proof {
            assert(views(placed)[p as int] == placed[p as int]@);
            assert(slots_wf(views(placed)[p as int].gid, inner));
            assert(slots_listed(views(placed)[p as int].gid, inner, v.admin));
            lemma_retired(ros_info.gid, inner, decls, v.admin);
        }
        let mut slots: Vec<NodeSlot> = Vec::new();
        std::mem::swap(&mut slots, &mut self.nodes_info[p].slots);

        // remove the nodes that are no longer declared
        let gone = split_leaving(&mut slots, &ros_info);
        let mut events: Vec<ROS2DiscoveryEvent> = Vec::new();
        assert(views(events@) =~= Seq::empty());
        retire_nodes(gone, &mut self.admin_space, &mut events);
        let ghost st = declaring_state(slots@, self.admin_space@, events@, false);
        proof {
            let left = leaving(inner, decls, inner.len());
            assert(Seq::<EventView>::empty() + nodes_gone(left, v.admin, left.len()).1
                =~= nodes_gone(left, v.admin, left.len()).1);
        }

        // for each declared node
        let n: usize = ros_info.node_entities_info_seq.len();
        let mut stopped: bool = false;
        for i in 0..n
            invariant
                n == decls.len(),
                v == old(self)@,
                v.wf(),
                decls == ros_info@.nodes,
                p < placed.len(),
                self.nodes_info@.len() == placed.len(),
                self.nodes_info@[p as int].gid == placed[p as int].gid,
                forall|q: int|
                    0 <= q < placed.len() && q != p ==> #[trigger] self.nodes_info@[q]
                        == placed[q],
                orphan_writers@ == orphan_owned(v.nodes),
                declaring_wf(
                    ros_info.gid,
                    declaring_state(slots@, self.admin_space@, events@, stopped),
                ),
                declaring_state(slots@, self.admin_space@, events@, stopped) == declaring_all(
                    st,
                    ros_info.gid,
                    decls,
                    v.readers,
                    v.writers,
                    orphan_writers@,
                    i as nat,
                ),
                self.participants == old(self).participants,
                self.writers == old(self).writers,
                self.readers == old(self).readers,
                self.ros_participant_info == old(self).ros_participant_info,
        {
            if !stopped {
                stopped =
                !declare_node(
                    &mut slots,
                    &mut self.admin_space,
                    &mut events,
                    ros_info.gid,
                    ros_info.node_entities_info_seq.get(i),
                    &self.readers,
                    &self.writers,
                    &orphan_writers,
                );
            }
        }
        std::mem::swap(&mut slots, &mut self.nodes_info[p].slots);
        proof {
            lemma_views_update(placed, p as int, self.nodes_info@[p as int]);
            assert(self.nodes_info@ =~= placed.update(p as int, self.nodes_info@[p as int]));
        }

        // save the declaration
        store(&mut self.ros_participant_info, ros_info);
        events
    }

    /// Forwards the message Writers that no node declares: each gets the
    /// synthetic [`ORPHAN_NODE_NAME`] node of its participant as its owner, for
    /// life. Call it after a declaration is processed, so that a Writer that is
    /// declared is not mistaken for an orphan.
    pub fn forward_orphan_writers(&mut self) -> (r: Vec<ROS2DiscoveryEvent>)
        requires
            old(self)@.wf(),
        ensures
            (final(self)@, views(r@)) == old(self)@.swept(),
            final(self)@.wf(),
    {
        let ghost v = self@;
        proof {
            lemma_swept(v);
        }
        // the Writers that are claimed, looked up once per sweep
        let claimed_writers = claimed_writers_of(&self.nodes_info);

        // the message Writers that nobody claims
        let mut candidates: Vec<DdsEntity> = Vec::new();
        let n: usize = self.writers.len();
        assert(views(candidates@) =~= Seq::empty());
        for i in 0..n
            invariant
                n == self.writers@.len(),
                v == self@,
                *self == *old(self),
                forall|gid: Gid| #[trigger]
                    claimed_writers@.contains(gid) == claimed(v.nodes, gid),
                views(candidates@) == orphans(v.writers, v.nodes, i as nat),
        {
            let writer = &self.writers[i];
            assert(v.writers[i as int] == writer@);
            if starts_with(writer.topic_name(), "rt/") && !contains(
                writer.topic_name(),
                "/_action/",
            ) && !claimed_writers.contains(&writer.key()) {
                let copy = writer.clone();
                proof {
                    lemma_views_push(candidates@, copy);
                }
                candidates.push(copy);
            }
        }

        let mut events: Vec<ROS2DiscoveryEvent> = Vec::new();
        let ghost st = Sweep { nodes: v.nodes, admin: v.admin, events: Seq::empty() };
        let ghost found_orphans = views(candidates@);
        let m: usize = candidates.len();
        proof {
            assert(views(events@) =~= Seq::empty());
            assert(sweep_state(self.nodes_info@, self.admin_space@, events@) == st);
        }
        for i in 0..m
            invariant
                m == candidates@.len(),
                found_orphans == views(candidates@),
                sweep_state(self.nodes_info@, self.admin_space@, events@) == adopted_all(
                    st,
                    found_orphans,
                    i as nat,
                ),
                sweep_wf(sweep_state(self.nodes_info@, self.admin_space@, events@)),
                self.participants == old(self).participants,
                self.writers == old(self).writers,
                self.readers == old(self).readers,
                self.ros_participant_info == old(self).ros_participant_info,
        {
            assert(found_orphans[i as int] == candidates@[i as int]@);
            adopt(&mut self.nodes_info, &mut self.admin_space, &mut events, &candidates[i]);
        }
        events
    }
}

/// What an entry of the admin space refers to.
#[derive(Debug)]
pub enum EntityValue<'a> {
    Participant(&'a DdsParticipant),
    Writer(&'a DdsEntity),
    Reader(&'a DdsEntity),
    Node(&'a NodeInfo),
}

impl<'a> View for EntityValue<'a> {
    type V = EntityValueView;

    open spec fn view(&self) -> EntityValueView {
        match *self {
            EntityValue::Participant(p) => EntityValueView::Participant(p@),
            EntityValue::Writer(e) => EntityValueView::Writer(e@),
            EntityValue::Reader(e) => EntityValueView::Reader(e@),
            EntityValue::Node(node) => EntityValueView::Node(node@),
        }
    }
}

impl<'a> EntityValue<'a> {
    /// The JSON value to reply with, from the one that the entity itself has: a
    /// participant, a Writer or a Reader is shown without its null policies.
    pub fn json_value<E>(&self, json: Result<Json, E>) -> (r: Result<Json, E>)
        ensures
            match json {
                Ok(before) => r matches Ok(after) && (if self@ is Node {
                    after == before
                } else {
                    trimmed(before, after)
                }),
                Err(e) => r == Err::<Json, E>(e),
            },
    {
        match self {
            EntityValue::Node(_) => json,
            _ => remove_null_qos_values(json),
        }
    }
}

/// The answer that an entry of the admin space gives to a query.
#[derive(Debug)]
pub enum AdminReply<'a> {
    /// The key expression to reply on, and the value to reply with.
    Reply(String, EntityValue<'a>),
    /// What the entry refers to is gone.
    Dangling,
    /// The prefix and the key make no key expression.
    Unjoinable,
}

impl DiscoveredEntities {
    /// The node of a participant that is filed under `name`.
    pub fn node(&self, participant: &Gid, name: &str) -> (r: Option<&NodeInfo>)
        requires
            self@.wf(),
        ensures
            match r {
                Some(node) => node_at(self@.nodes, *participant, name@) == Some(node@),
                None => node_at(self@.nodes, *participant, name@) is None,
            },
    {
        match find(&self.nodes_info, participant) {
            Some(p) => {
                assert(self@.nodes[p as int] == self.nodes_info@[p as int]@);
                assert(slots_wf(self@.nodes[p as int].gid, self@.nodes[p as int].slots));
                match get(&self.nodes_info[p].slots, &name.to_owned()) {
                    Some(slot) => Some(&slot.node),
                    None => None,
                }
            },
            None => None,
        }
    }

    /// What an entry of the admin space refers to, unless it is gone.
    pub fn get_entity_value(&self, entity_ref: &EntityRef) -> (r: Option<EntityValue<'_>>)
        requires
            self@.wf(),
        ensures
            match r {
                Some(value) => self@.resolved(entity_ref@) == Some(value@),
                None => self@.resolved(entity_ref@) is None,
            },
    {
        match entity_ref {
            EntityRef::Participant(gid) => match get(&self.participants, gid) {
                Some(p) => Some(EntityValue::Participant(p)),
                None => None,
            },
            EntityRef::Writer(gid) => match self.get_writer(gid) {
                Some(e) => Some(EntityValue::Writer(e)),
                None => None,
            },
            EntityRef::Reader(gid) => match self.get_reader(gid) {
                Some(e) => Some(EntityValue::Reader(e)),
                None => None,
            },
            EntityRef::Node(gid, name) => match self.node(gid, name) {
                Some(node) => Some(EntityValue::Node(node)),
                None => None,
            },
        }
    }

    fn wild_entries(&self, sub: &str, entries: &mut Vec<AdminEntry>)
        ensures
            views(final(entries)@) == views(old(entries)@) + wild_matches(
                self@.admin,
                sub@,
                self@.admin.len(),
            ),
            sub@ == "**"@ ==> forall|i: int|
                0 <= i < self@.admin.len() && plain((#[trigger] self@.admin[i]).key)
                    ==> wild_matches(self@.admin, sub@, self@.admin.len()).contains(self@.admin[i]),
    {
        assert(views(entries@) + Seq::<AdminView>::empty() =~= views(entries@));
        for i in 0..self.admin_space.len()
            invariant
                views(entries@) == views(old(entries)@) + wild_matches(
                    self@.admin,
                    sub@,
                    i as nat,
                ),
                sub@ == "**"@ ==> forall|j: int|
                    0 <= j < i && plain((#[trigger] self@.admin[j]).key) ==> wild_matches(
                        self@.admin,
                        sub@,
                        i as nat,
                    ).contains(self@.admin[j]),
        {
            let entry = &self.admin_space[i];
            let ghost before = wild_matches(self@.admin, sub@, i as nat);
            assert(self@.admin[i as int] == entry@);
            if let Some(true) = intersects(sub, &entry.key) {
                let copy = AdminEntry { key: entry.key.clone(), entity: entry.entity.clone() };
                proof {
                    lemma_views_push(entries@, copy);
                    assert(views(old(entries)@) + before.push(copy@) =~= (views(old(entries)@)
                        + before).push(copy@));
                }
                entries.push(copy);
            }
            assert(sub@ == "**"@ ==> forall|j: int|
                0 <= j < i + 1 && plain((#[trigger] self@.admin[j]).key) ==> wild_matches(
                    self@.admin,
                    sub@,
                    (i + 1) as nat,
                ).contains(self@.admin[j])) by {
                let after = wild_matches(self@.admin, sub@, (i + 1) as nat);
                if sub@ == "**"@ {
                    assert forall|j: int|
                        0 <= j < i + 1 && plain(
                            (#[trigger] self@.admin[j]).key,
                        ) implies after.contains(self@.admin[j]) by {
                        if j < i {
                            assert(before.contains(self@.admin[j]));
                            let k = choose|k: int|
                                0 <= k < before.len() && before[k] == self@.admin[j];
                            assert(after[k] == self@.admin[j]);
                        } else {
                            assert(after[before.len() as int] == self@.admin[j]);
                        }
                    }
                }
            }
        }
    }

    /// The entries of the admin space that a query asks for, by the selector of
    /// the query and the prefix that all keys of the admin space have there.
    ///
    /// A selector without wildcards that names an entry finds that entry, and one
    /// for all that is below the prefix finds every entry with a plain key.
    pub fn treat_admin_query(&self, selector: &str, admin_keyexpr_prefix: &str) -> (r: Result<
        Vec<AdminEntry>,
        AdminQueryError,
    >)
        requires
            self@.wf(),
        ensures
            match r {
                Ok(entries) => query_result(self@.admin, selector@, admin_keyexpr_prefix@) == Ok::<
                    Seq<AdminView>,
                    AdminQueryError,
                >(views(entries@)),
                Err(e) => query_result(self@.admin, selector@, admin_keyexpr_prefix@) == Err::<
                    Seq<AdminView>,
                    AdminQueryError,
                >(e),
            },
            forall|entry: AdminView|
                literal(selector@) && literal(admin_keyexpr_prefix@) && selector@ == key_text(
                    admin_keyexpr_prefix@,
                    entry.key,
                ) && entry.key.len() > 0 && #[trigger] lookup(self@.admin, entry.key) == Some(
                    entry,
                ) ==> (r matches Ok(entries) && views(entries@) == seq![entry]),
            literal(admin_keyexpr_prefix@) && selector@ == key_text(
                admin_keyexpr_prefix@,
                "**"@,
            ) ==> (r matches Ok(entries) && forall|i: int|
                0 <= i < self@.admin.len() && plain((#[trigger] self@.admin[i]).key) ==> views(
                    entries@,
                ).contains(self@.admin[i])),
    {
        let subs = match strip_prefix(selector, admin_keyexpr_prefix) {
            Some(subs) => subs,
            None => {
                return Err(AdminQueryError::InvalidKeyExpr);
            },
        };
        let ghost asked = texts_of(subs@);
        if subs.len() == 0 {
            proof {
                assert forall|entry: AdminView|
                    literal(selector@) && literal(admin_keyexpr_prefix@) && selector@ == key_text(
                        admin_keyexpr_prefix@,
                        entry.key,
                    ) && entry.key.len() > 0 implies #[trigger] lookup(self@.admin, entry.key)
                    != Some(entry) by {
                    lemma_below(selector@, admin_keyexpr_prefix@, entry.key);
                }
            }
            return Err(AdminQueryError::NotPrefixed);
        }
        let mut entries: Vec<AdminEntry> = Vec::new();
        assert(views(entries@) =~= Seq::empty());
        for i in 0..subs.len()
            invariant
                self@.wf(),
                asked == texts_of(subs@),
                views(entries@) == query_matches(self@.admin, asked, i as nat),
                i > 0 && asked[0] == "**"@ ==> forall|k: int|
                    0 <= k < self@.admin.len() && plain((#[trigger] self@.admin[k]).key) ==> views(
                        entries@,
                    ).contains(self@.admin[k]),
        {
            let sub = &subs[i];
            assert(asked[i as int] == sub@);
            let ghost so_far = views(entries@);
            if is_wild(sub) {
                self.wild_entries(sub, &mut entries);
            } else {
                let ghost before = views(entries@);
                match get(&self.admin_space, sub) {
                    Some(entry) => {
                        let copy = AdminEntry {
                            key: entry.key.clone(),
                            entity: entry.entity.clone(),
                        };
                        proof {
                            lemma_views_push(entries@, copy);
                            assert(before + seq![copy@] =~= before.push(copy@));
                        }
                        entries.push(copy);
                    },
                    None => {
                        assert(before + Seq::<AdminView>::empty() =~= before);
                    },
                }
            }
            assert(asked[0] == "**"@ ==> forall|k: int|
                0 <= k < self@.admin.len() && plain((#[trigger] self@.admin[k]).key) ==> views(
                    entries@,
                ).contains(self@.admin[k])) by {
                reveal_strlit("**");
                assert("**"@[0] == '*');
                let more = sub_matches(self@.admin, sub@);
                assert(views(entries@) == so_far + more);
                if asked[0] == "**"@ {
                    assert forall|k: int|
                        0 <= k < self@.admin.len() && plain(
                            (#[trigger] self@.admin[k]).key,
                        ) implies views(entries@).contains(self@.admin[k]) by {
                        if i == 0 {
                            assert(more.contains(self@.admin[k]));
                            let j = choose|j: int| 0 <= j < more.len() && more[j] == self@.admin[k];
                            assert((so_far + more)[so_far.len() + j] == self@.admin[k]);
                        } else {
                            assert(so_far.contains(self@.admin[k]));
                            let j = choose|j: int|
                                0 <= j < so_far.len() && so_far[j] == self@.admin[k];
                            assert((so_far + more)[j] == self@.admin[k]);
                        }
                    }
                }
            }
        }
        proof {
            assert forall|entry: AdminView|
                literal(selector@) && literal(admin_keyexpr_prefix@) && selector@ == key_text(
                    admin_keyexpr_prefix@,
                    entry.key,
                ) && entry.key.len() > 0 && #[trigger] lookup(self@.admin, entry.key) == Some(
                    entry,
                ) implies views(entries@) == seq![entry] by {
                lemma_below(selector@, admin_keyexpr_prefix@, entry.key);
                assert(asked[0] == entry.key);
                reveal_with_fuel(query_matches, 2);
                assert(query_matches(self@.admin, asked, 1) =~= seq![entry]);
            }
        }
        Ok(entries)
    }

    /// The answer that an entry of the admin space gives to a query.
    pub fn admin_reply(
        &self,
        admin_keyexpr_prefix: &str,
        key_expr: &str,
        entity_ref: &EntityRef,
    ) -> (r: AdminReply<'_>)
        requires
            self@.wf(),
        ensures
            match r {
                AdminReply::Reply(key, value) => self@.resolved(entity_ref@) == Some(value@)
                    && keys_joined(admin_keyexpr_prefix@, key_expr@) == Some(key@),
                AdminReply::Dangling => self@.resolved(entity_ref@) is None,
                AdminReply::Unjoinable => self@.resolved(entity_ref@) is Some && keys_joined(
                    admin_keyexpr_prefix@,
                    key_expr@,
                ) is None,
            },
            literal(admin_keyexpr_prefix@) && literal(key_expr@) && self@.resolved(entity_ref@) is Some
                ==> (r matches AdminReply::Reply(key, value) && key@ == key_text(
                admin_keyexpr_prefix@,
                key_expr@,
            )),
    {
        match self.get_entity_value(entity_ref) {
            Some(value) => match join(admin_keyexpr_prefix, key_expr) {
                Some(key) => AdminReply::Reply(key, value),
                None => AdminReply::Unjoinable,
            },
            None => AdminReply::Dangling,
        }
    }
}

/// What is left of a literal key below a prefix is literal as far as wildcards
/// go, and is what stands behind the prefix.
proof fn lemma_below(selector: Seq<char>, prefix: Seq<char>, key: Seq<char>)
    requires
        literal(selector),
        selector == key_text(prefix, key),
        key.len() > 0,
    ensures
        rests_below(selector, prefix) == seq![key],
        !key.contains('*'),
{
    let head = prefix + seq!['/'];
    assert(selector =~= head + key);
    assert(selector.take(head.len() as int) =~= head);
    assert(head.is_prefix_of(selector));
    assert(selector.skip(prefix.len() as int + 1) =~= key);
    if key.contains('*') {
        let i = choose|i: int| 0 <= i < key.len() && key[i] == '*';
        assert(selector[head.len() + i] == '*');
    }
}

/// The texts of the identifiers of Writers or Readers.
fn entity_names(entities: &Vec<DdsEntity>) -> (r: Vec<String>)
    ensures
        texts_of(r@) == Seq::new(
            entities@.len(),
            |i: int| views(entities@)[i].key.hex(),
        ),
{
    let mut names: Vec<String> = Vec::new();
    for i in 0..entities.len()
        invariant
            names@.len() == i,
            forall|j: int|
                0 <= j < i ==> (#[trigger] names@[j])@ == views(entities@)[j].key.hex(),
    {
        names.push(entities[i].key().to_hex());
    }
    assert(texts_of(names@) =~= Seq::new(
        entities@.len(),
        |i: int| views(entities@)[i].key.hex(),
    ));
    names
}

impl DiscoveredEntities {
    fn participant_names(&self) -> (r: Vec<String>)
        ensures
            texts_of(r@) == Seq::new(
                self@.participants.len(),
                |i: int| self@.participants[i].key.hex(),
            ),
    {
        let mut names: Vec<String> = Vec::new();
        for i in 0..self.participants.len()
            invariant
                names@.len() == i,
                forall|j: int|
                    0 <= j < i ==> (#[trigger] names@[j])@ == self@.participants[j].key.hex(),
        {
            names.push(self.participants[i].key.to_hex());
        }
        assert(texts_of(names@) =~= Seq::new(
            self@.participants.len(),
            |i: int| self@.participants[i].key.hex(),
        ));
        names
    }

    fn declared_texts(&self) -> (r: Vec<String>)
        ensures
            texts_of(r@) == declared_entries(self@.declared),
    {
        let mut texts: Vec<String> = Vec::new();
        for i in 0..self.ros_participant_info.len()
            invariant
                texts@.len() == i,
                forall|j: int|
                    0 <= j < i ==> (#[trigger] texts@[j])@ == declared_entries(self@.declared)[j],
        {
            let info = &self.ros_participant_info[i];
            assert(self@.declared[i as int] == info@);
            texts.push(join3(&info.gid.to_hex(), ": ", &describe_participant_decl(info)));
        }
        assert(texts_of(texts@) =~= declared_entries(self@.declared));
        texts
    }

    fn nodes_texts(&self) -> (r: Vec<String>)
        ensures
            texts_of(r@) == nodes_entries(self@.nodes),
    {
        let mut texts: Vec<String> = Vec::new();
        for i in 0..self.nodes_info.len()
            invariant
                texts@.len() == i,
                forall|j: int|
                    0 <= j < i ==> (#[trigger] texts@[j])@ == nodes_entries(self@.nodes)[j],
        {
            let slots = &self.nodes_info[i].slots;
            let mut inner: Vec<String> = Vec::new();
            for s in 0..slots.len()
                invariant
                    inner@.len() == s,
                    forall|t: int|
                        0 <= t < s ==> (#[trigger] inner@[t])@ == slot_entries(views(slots@))[t],
            {
                let slot = &slots[s];
                assert(views(slots@)[s as int] == slot@);
                inner.push(join3(&quote(&slot.name), ": ", &describe_node(&slot.node)));
            }
            proof {
                assert(self@.nodes[i as int] == self.nodes_info@[i as int]@);
                assert(texts_of(inner@) =~= slot_entries(views(slots@)));
            }
            texts.push(join3(&self.nodes_info[i].gid.to_hex(), ": ", &braced_of(&inner)));
        }
        assert(texts_of(texts@) =~= nodes_entries(self@.nodes));
        texts
    }

    fn admin_texts(&self) -> (r: Vec<String>)
        ensures
            texts_of(r@) == self@.admin.map_values(|entry: AdminView| key_expr_text(entry.key)),
    {
        let mut texts: Vec<String> = Vec::new();
        for i in 0..self.admin_space.len()
            invariant
                texts@.len() == i,
                forall|j: int|
                    0 <= j < i ==> (#[trigger] texts@[j])@ == key_expr_text(self@.admin[j].key),
        {
            assert(self@.admin[i as int] == self.admin_space@[i as int]@);
            texts.push(join3("ke`", &self.admin_space[i].key, "`"));
        }
        assert(texts_of(texts@) =~= self@.admin.map_values(
            |entry: AdminView| key_expr_text(entry.key),
        ));
        texts
    }

    /// What is known of each kind, one line for each.
    pub fn describe(&self) -> (r: String)
        ensures
            r@ == self@.description(),
    {
        let mut r = join2("participants: ", &list_of(&self.participant_names()));
        r.append("\nwriters: ");
        r.append(&list_of(&entity_names(&self.writers)));
        r.append("\nreaders: ");
        r.append(&list_of(&entity_names(&self.readers)));
        r.append("\nros_participant_info: ");
        r.append(&braced_of(&self.declared_texts()));
        r.append("\nnodes_info: ");
        r.append(&braced_of(&self.nodes_texts()));
        r.append("\nadmin_space: ");
        r.append(&list_of(&self.admin_texts()));
        r.append("\n");
        proof {
            assert(Seq::new(self.writers@.len(), |i: int| views(self.writers@)[i].key.hex())
                =~= Seq::new(self@.writers.len(), |i: int| self@.writers[i].key.hex()));
            assert(Seq::new(self.readers@.len(), |i: int| views(self.readers@)[i].key.hex())
                =~= Seq::new(self@.readers.len(), |i: int| self@.readers[i].key.hex()));
        }
        r
    }
}

/// An entry of the admin space, and what it refers to, are read as they are.
pub proof fn law_entry_is_read_as_it_is(entry: AdminEntry, gid: Gid, name: String)
    ensures
        entry@.key == entry.key@,
        entry@.entity == entry.entity@,
        EntityRef::Participant(gid)@ == EntityRefView::Participant(gid),
        EntityRef::Writer(gid)@ == EntityRefView::Writer(gid),
        EntityRef::Reader(gid)@ == EntityRefView::Reader(gid),
        EntityRef::Node(gid, name)@ == EntityRefView::Node(gid, name@),
{
}

} // verus!
