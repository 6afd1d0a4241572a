//! What the discovered entities are, and what each report changes, as
//! mathematical values.
use crate::admin_keys::{entity_key, node_id, node_key, participant_key};
use crate::dds::{EntityView, ParticipantView};
use crate::events::EventView;
use crate::gid::Gid;
use crate::key_expr::{field_fits, keys_intersect, prefix_stripped};
use crate::node_info::{
    all_ends, awaited, claims_writer, new_node, owns_msg_writer, publishers_write, released,
    updated, NodeView,
};
use crate::ros_discovery::{NodeDeclView, ParticipantDeclView};
use crate::table::{found, lookup, place, removed, stored, unique, HasKey};
use crate::text::has_part;
use vstd::prelude::*;

verus! {

/// The name of the synthetic node that holds the message Writers of a
/// participant that no node declares.
pub const ORPHAN_NODE_NAME: &'static str = "_zenoh_orphan_endpoints_";

/// A node under the name that it is filed by.
pub struct SlotView {
    pub name: Seq<char>,
    pub node: NodeView,
}

impl HasKey for SlotView {
    type K = Seq<char>;

    open spec fn key(&self) -> Seq<char> {
        self.name
    }
}

/// The nodes of a participant.
pub struct ParticipantNodesView {
    pub gid: Gid,
    pub slots: Seq<SlotView>,
}

impl HasKey for ParticipantNodesView {
    type K = Gid;

    open spec fn key(&self) -> Gid {
        self.gid
    }
}

/// What an entry of the admin space refers to.
pub enum EntityRefView {
    Participant(Gid),
    Writer(Gid),
    Reader(Gid),
    Node(Gid, Seq<char>),
}

/// An entry of the admin space.
pub struct AdminView {
    pub key: Seq<char>,
    pub entity: EntityRefView,
}

impl HasKey for AdminView {
    type K = Seq<char>;

    open spec fn key(&self) -> Seq<char> {
        self.key
    }
}

/// All that was discovered.
pub struct EntitiesView {
    pub participants: Seq<ParticipantView>,
    pub writers: Seq<EntityView>,
    pub readers: Seq<EntityView>,
    pub declared: Seq<ParticipantDeclView>,
    pub nodes: Seq<ParticipantNodesView>,
    pub admin: Seq<AdminView>,
}

/// Nothing discovered yet.
pub open spec fn no_entities() -> EntitiesView {
    EntitiesView {
        participants: Seq::empty(),
        writers: Seq::empty(),
        readers: Seq::empty(),
        declared: Seq::empty(),
        nodes: Seq::empty(),
        admin: Seq::empty(),
    }
}

/// The entry of a Writer or a Reader in the admin space.
pub open spec fn entity_entry(e: EntityView, writer: bool) -> AdminView {
    AdminView {
        key: entity_key(e, writer),
        entity: if writer {
            EntityRefView::Writer(e.key)
        } else {
            EntityRefView::Reader(e.key)
        },
    }
}

/// The entry of a participant in the admin space.
pub open spec fn participant_entry(gid: Gid) -> AdminView {
    AdminView { key: participant_key(gid), entity: EntityRefView::Participant(gid) }
}

/// The entry of a node in the admin space.
pub open spec fn node_entry(participant: Gid, fullname: Seq<char>) -> AdminView {
    AdminView {
        key: node_key(participant, fullname),
        entity: EntityRefView::Node(participant, fullname),
    }
}

// ---------------------------------------------------------------------------
// Writers and Readers that come and go
// ---------------------------------------------------------------------------

/// Among the first `n` nodes, the first one that waits for `gid`.
pub open spec fn awaiting_slot(slots: Seq<SlotView>, gid: Gid, writer: bool, n: nat) -> Option<int>
    decreases n,
{
    if n == 0 {
        None
    } else {
        let before = awaiting_slot(slots, gid, writer, (n - 1) as nat);
        if before is Some {
            before
        } else if slots[n - 1].node.undiscovered(writer).contains(gid) {
            Some(n - 1)
        } else {
            None
        }
    }
}

/// The nodes of one participant once DDS reports an entity: the first one that
/// waits for it gets it.
pub open spec fn slots_awaited(slots: Seq<SlotView>, e: EntityView, writer: bool) -> (
    Seq<SlotView>,
    Option<EventView>,
) {
    match awaiting_slot(slots, e.key, writer, slots.len()) {
        Some(i) => {
            let (node, event) = awaited(slots[i].node, e, writer);
            (slots.update(i, SlotView { name: slots[i].name, node }), event)
        },
        None => (slots, None),
    }
}

/// The nodes once DDS reports an entity and the first `n` participants were
/// asked for it, up to the first event.
pub open spec fn nodes_awaited(
    nodes: Seq<ParticipantNodesView>,
    e: EntityView,
    writer: bool,
    n: nat,
) -> (Seq<ParticipantNodesView>, Option<EventView>)
    decreases n,
{
    if n == 0 {
        (nodes, None)
    } else {
        let before = nodes_awaited(nodes, e, writer, (n - 1) as nat);
        if before.1 is Some {
            before
        } else {
            let (slots, event) = slots_awaited(before.0[n - 1].slots, e, writer);
            (
                before.0.update(
                    n - 1,
                    ParticipantNodesView { gid: before.0[n - 1].gid, slots },
                ),
                event,
            )
        }
    }
}

/// The nodes of one participant once an entity is gone and the first `n` nodes
/// were asked to forget it, up to the first event.
pub open spec fn slots_released(slots: Seq<SlotView>, gid: Gid, writer: bool, n: nat) -> (
    Seq<SlotView>,
    Option<EventView>,
)
    decreases n,
{
    if n == 0 {
        (slots, None)
    } else {
        let before = slots_released(slots, gid, writer, (n - 1) as nat);
        if before.1 is Some {
            before
        } else {
            let (node, event) = released(before.0[n - 1].node, gid, writer);
            (before.0.update(n - 1, SlotView { name: before.0[n - 1].name, node }), event)
        }
    }
}

/// The nodes once an entity is gone and the first `n` participants were asked
/// to forget it, up to the first event.
pub open spec fn nodes_released(
    nodes: Seq<ParticipantNodesView>,
    gid: Gid,
    writer: bool,
    n: nat,
) -> (Seq<ParticipantNodesView>, Option<EventView>)
    decreases n,
{
    if n == 0 {
        (nodes, None)
    } else {
        let before = nodes_released(nodes, gid, writer, (n - 1) as nat);
        if before.1 is Some {
            before
        } else {
            let inner = before.0[n - 1].slots;
            let (slots, event) = slots_released(inner, gid, writer, inner.len());
            (
                before.0.update(
                    n - 1,
                    ParticipantNodesView { gid: before.0[n - 1].gid, slots },
                ),
                event,
            )
        }
    }
}

// ---------------------------------------------------------------------------
// Nodes that come and go
// ---------------------------------------------------------------------------

/// The admin space once the first `n` nodes have left it, and the events that
/// their end causes.
pub open spec fn nodes_gone(slots: Seq<SlotView>, admin: Seq<AdminView>, n: nat) -> (
    Seq<AdminView>,
    Seq<EventView>,
)
    decreases n,
{
    if n == 0 {
        (admin, Seq::empty())
    } else {
        let (a, e) = nodes_gone(slots, admin, (n - 1) as nat);
        let node = slots[n - 1].node;
        (removed(a, node_key(node.participant, node.fullname())), e + all_ends(node))
    }
}

/// Whether a participant keeps the node: the orphan node always, another one
/// while it is declared.
pub open spec fn stays(slot: SlotView, decls: Seq<NodeDeclView>) -> bool {
    slot.name == ORPHAN_NODE_NAME@ || found(decls, slot.name)
}

/// Of the first `n` nodes, those that stay.
pub open spec fn staying(slots: Seq<SlotView>, decls: Seq<NodeDeclView>, n: nat) -> Seq<SlotView>
    decreases n,
{
    if n == 0 {
        Seq::empty()
    } else {
        let before = staying(slots, decls, (n - 1) as nat);
        if stays(slots[n - 1], decls) {
            before.push(slots[n - 1])
        } else {
            before
        }
    }
}

/// Of the first `n` nodes, those that do not stay.
pub open spec fn leaving(slots: Seq<SlotView>, decls: Seq<NodeDeclView>, n: nat) -> Seq<SlotView>
    decreases n,
{
    if n == 0 {
        Seq::empty()
    } else {
        let before = leaving(slots, decls, (n - 1) as nat);
        if stays(slots[n - 1], decls) {
            before
        } else {
            before.push(slots[n - 1])
        }
    }
}

/// The node, and the events, once the first `n` of the declared Writers (or
/// Readers) are attached to it. Those to skip are passed over, and those that
/// DDS has not reported yet are waited for.
pub open spec fn attached(
    node: NodeView,
    gids: Seq<Gid>,
    entities: Seq<EntityView>,
    writer: bool,
    skip: Set<Gid>,
    n: nat,
) -> (NodeView, Seq<EventView>)
    decreases n,
{
    if n == 0 {
        (node, Seq::empty())
    } else {
        let (nd, events) = attached(node, gids, entities, writer, skip, (n - 1) as nat);
        let gid = gids[n - 1];
        if skip.contains(gid) {
            (nd, events)
        } else {
            match lookup(entities, gid) {
                Some(e) => {
                    let (next, event) = updated(nd, e, writer);
                    (
                        next,
                        match event {
                            Some(event) => events.push(event),
                            None => events,
                        },
                    )
                },
                None => (
                    nd.with_undiscovered(writer, nd.undiscovered(writer).push(gid)),
                    events,
                ),
            }
        }
    }
}

/// The node, and the events, once all that it declares is attached to it.
pub open spec fn node_declared(
    node: NodeView,
    decl: NodeDeclView,
    readers: Seq<EntityView>,
    writers: Seq<EntityView>,
    skip: Set<Gid>,
) -> (NodeView, Seq<EventView>) {
    let (first, reader_events) = attached(
        node,
        decl.readers,
        readers,
        false,
        Set::empty(),
        decl.readers.len(),
    );
    let (second, writer_events) = attached(
        first,
        decl.writers,
        writers,
        true,
        skip,
        decl.writers.len(),
    );
    (second, reader_events + writer_events)
}

/// What declared nodes change. The declarations behind a node whose name cannot
/// stand in a key expression are passed over.
pub struct Declaring {
    pub slots: Seq<SlotView>,
    pub admin: Seq<AdminView>,
    pub events: Seq<EventView>,
    pub stopped: bool,
}

/// Whether the declared node is there or can be added.
pub open spec fn can_declare(slots: Seq<SlotView>, participant: Gid, decl: NodeDeclView) -> bool {
    found(slots, decl.key()) || field_fits(node_id(participant, decl.key()))
}

/// The nodes and the admin space with the declared node in them.
pub open spec fn with_node(
    slots: Seq<SlotView>,
    admin: Seq<AdminView>,
    participant: Gid,
    decl: NodeDeclView,
) -> (Seq<SlotView>, Seq<AdminView>) {
    if found(slots, decl.key()) {
        (slots, admin)
    } else {
        (
            slots.push(
                SlotView {
                    name: decl.key(),
                    node: new_node(decl.namespace, decl.name, participant),
                },
            ),
            stored(admin, node_entry(participant, decl.key())),
        )
    }
}

/// What one declared node changes.
pub open spec fn declaring(
    st: Declaring,
    participant: Gid,
    decl: NodeDeclView,
    readers: Seq<EntityView>,
    writers: Seq<EntityView>,
    skip: Set<Gid>,
) -> Declaring {
    if st.stopped {
        st
    } else if !can_declare(st.slots, participant, decl) {
        Declaring { stopped: true, ..st }
    } else {
        let (slots, admin) = with_node(st.slots, st.admin, participant, decl);
        let i = place(slots, decl.key());
        let (node, events) = node_declared(slots[i].node, decl, readers, writers, skip);
        Declaring {
            slots: slots.update(i, SlotView { name: slots[i].name, node }),
            admin,
            events: st.events + events,
            stopped: false,
        }
    }
}

/// What the first `n` declared nodes change.
pub open spec fn declaring_all(
    st: Declaring,
    participant: Gid,
    decls: Seq<NodeDeclView>,
    readers: Seq<EntityView>,
    writers: Seq<EntityView>,
    skip: Set<Gid>,
    n: nat,
) -> Declaring
    decreases n,
{
    if n == 0 {
        st
    } else {
        declaring(
            declaring_all(st, participant, decls, readers, writers, skip, (n - 1) as nat),
            participant,
            decls[n - 1],
            readers,
            writers,
            skip,
        )
    }
}

// ---------------------------------------------------------------------------
// Writers that no node declares
// ---------------------------------------------------------------------------

/// Whether one of the nodes has declared the Writer, as far as messages go.
pub open spec fn claimed_in(slots: Seq<SlotView>, gid: Gid) -> bool {
    exists|s: int| 0 <= s < slots.len() && claims_writer((#[trigger] slots[s]).node, gid)
}

/// Whether a node of some participant has declared the Writer.
pub open spec fn claimed(nodes: Seq<ParticipantNodesView>, gid: Gid) -> bool {
    exists|p: int| 0 <= p < nodes.len() && claimed_in((#[trigger] nodes[p]).slots, gid)
}

/// Whether the orphan node among the nodes owns the Writer.
pub open spec fn orphan_owns_in(slots: Seq<SlotView>, gid: Gid) -> bool {
    exists|s: int|
        0 <= s < slots.len() && (#[trigger] slots[s]).name == ORPHAN_NODE_NAME@ && owns_msg_writer(
            slots[s].node,
            gid,
        )
}

/// Whether the orphan node of some participant owns the Writer.
pub open spec fn orphan_owns(nodes: Seq<ParticipantNodesView>, gid: Gid) -> bool {
    exists|p: int| 0 <= p < nodes.len() && orphan_owns_in((#[trigger] nodes[p]).slots, gid)
}

/// The Writers that orphan nodes own.
pub open spec fn orphan_owned(nodes: Seq<ParticipantNodesView>) -> Set<Gid> {
    Set::new(|gid: Gid| orphan_owns(nodes, gid))
}

/// Whether a Writer is that of a plain message publisher: its topic is that of a
/// message, and not one of those that make up an action.
pub open spec fn is_plain_message(topic: Seq<char>) -> bool {
    "rt/"@.is_prefix_of(topic) && !has_part(topic, "/_action/"@)
}

/// Whether the Writer is a message publisher that no node declares.
pub open spec fn is_orphan(nodes: Seq<ParticipantNodesView>, w: EntityView) -> bool {
    is_plain_message(w.topic_name) && !claimed(nodes, w.key)
}

/// Of the first `n` Writers, those that no node declares.
pub open spec fn orphans(
    writers: Seq<EntityView>,
    nodes: Seq<ParticipantNodesView>,
    n: nat,
) -> Seq<EntityView>
    decreases n,
{
    if n == 0 {
        Seq::empty()
    } else {
        let before = orphans(writers, nodes, (n - 1) as nat);
        if is_orphan(nodes, writers[n - 1]) {
            before.push(writers[n - 1])
        } else {
            before
        }
    }
}

/// What the sweep for orphans changes.
pub struct Sweep {
    pub nodes: Seq<ParticipantNodesView>,
    pub admin: Seq<AdminView>,
    pub events: Seq<EventView>,
}

/// The nodes with a place for those of `participant`.
pub open spec fn with_participant(
    nodes: Seq<ParticipantNodesView>,
    participant: Gid,
) -> Seq<ParticipantNodesView> {
    if found(nodes, participant) {
        nodes
    } else {
        nodes.push(ParticipantNodesView { gid: participant, slots: Seq::empty() })
    }
}

/// The nodes of a participant with its orphan node among them.
pub open spec fn with_orphan_node(slots: Seq<SlotView>, participant: Gid) -> Seq<SlotView> {
    if found(slots, ORPHAN_NODE_NAME@) {
        slots
    } else {
        slots.push(
            SlotView {
                name: ORPHAN_NODE_NAME@,
                node: new_node("/"@, ORPHAN_NODE_NAME@, participant),
            },
        )
    }
}

/// The full name of every orphan node.
pub open spec fn orphan_fullname() -> Seq<char> {
    "/"@ + ORPHAN_NODE_NAME@
}

/// What it changes that the orphan node of its participant gets a Writer.
pub open spec fn adopted(st: Sweep, w: EntityView) -> Sweep {
    let nodes = with_participant(st.nodes, w.participant_key);
    let p = place(nodes, w.participant_key);
    let slots = with_orphan_node(nodes[p].slots, w.participant_key);
    let s = place(slots, ORPHAN_NODE_NAME@);
    let (node, event) = updated(slots[s].node, w, true);
    Sweep {
        nodes: nodes.update(
            p,
            ParticipantNodesView {
                gid: nodes[p].gid,
                slots: slots.update(s, SlotView { name: slots[s].name, node }),
            },
        ),
        admin: if found(nodes[p].slots, ORPHAN_NODE_NAME@) {
            st.admin
        } else {
            stored(st.admin, node_entry(w.participant_key, orphan_fullname()))
        },
        events: match event {
            Some(event) => st.events.push(event),
            None => st.events,
        },
    }
}

/// What it changes that the first `n` of the Writers are adopted.
pub open spec fn adopted_all(st: Sweep, writers: Seq<EntityView>, n: nat) -> Sweep
    decreases n,
{
    if n == 0 {
        st
    } else {
        adopted(adopted_all(st, writers, (n - 1) as nat), writers[n - 1])
    }
}

// ---------------------------------------------------------------------------
// The whole
// ---------------------------------------------------------------------------

/// The node of a participant that is filed under `name`.
pub open spec fn node_at(
    nodes: Seq<ParticipantNodesView>,
    participant: Gid,
    name: Seq<char>,
) -> Option<NodeView> {
    match lookup(nodes, participant) {
        Some(pn) => match lookup(pn.slots, name) {
            Some(slot) => Some(slot.node),
            None => None,
        },
        None => None,
    }
}

/// A node belongs to its participant, is filed by its full name, and publishes
/// with Writers. The orphan node is filed by its bare name, and waits for
/// nothing.
pub open spec fn slot_wf(participant: Gid, slot: SlotView) -> bool {
    &&& slot.node.participant == participant
    &&& publishers_write(slot.node)
    &&& if slot.name == ORPHAN_NODE_NAME@ {
        &&& slot.node.fullname() == orphan_fullname()
        &&& slot.node.undiscovered_writers.len() == 0
        &&& slot.node.undiscovered_readers.len() == 0
    } else {
        slot.name == slot.node.fullname()
    }
}

pub open spec fn slots_wf(participant: Gid, slots: Seq<SlotView>) -> bool {
    &&& unique(slots)
    &&& forall|s: int| 0 <= s < slots.len() ==> slot_wf(participant, #[trigger] slots[s])
}

/// Every participant has one list of nodes, with one node for a name.
pub open spec fn nodes_wf(nodes: Seq<ParticipantNodesView>) -> bool {
    &&& unique(nodes)
    &&& forall|p: int|
        0 <= p < nodes.len() ==> slots_wf((#[trigger] nodes[p]).gid, nodes[p].slots)
}

/// Every participant stands in the admin space under its key.
pub open spec fn participants_listed(
    participants: Seq<ParticipantView>,
    admin: Seq<AdminView>,
) -> bool {
    forall|gid: Gid| #[trigger]
        found(participants, gid) ==> lookup(admin, participant_key(gid)) == Some(
            participant_entry(gid),
        )
}

/// Every Writer (or Reader) stands in the admin space under its key.
pub open spec fn entities_listed(
    entities: Seq<EntityView>,
    admin: Seq<AdminView>,
    writer: bool,
) -> bool {
    forall|gid: Gid|
        (#[trigger] lookup(entities, gid)) matches Some(e) ==> lookup(admin, entity_key(e, writer))
            == Some(entity_entry(e, writer))
}

/// Every declared node of the participant stands in the admin space under its
/// key.
pub open spec fn slots_listed(participant: Gid, slots: Seq<SlotView>, admin: Seq<AdminView>) -> bool {
    forall|name: Seq<char>| #[trigger]
        found(slots, name) && name != ORPHAN_NODE_NAME@ ==> lookup(
            admin,
            node_key(participant, name),
        ) == Some(node_entry(participant, name))
}

/// Every declared node stands in the admin space under its key.
pub open spec fn nodes_listed(nodes: Seq<ParticipantNodesView>, admin: Seq<AdminView>) -> bool {
    forall|p: int|
        0 <= p < nodes.len() ==> slots_listed((#[trigger] nodes[p]).gid, nodes[p].slots, admin)
}

impl EntitiesView {
    /// What always holds: there is one entity for an identifier and one entry
    /// for a key of the admin space, and what was reported and not withdrawn
    /// stands in the admin space under its key.
    pub open spec fn wf(self) -> bool {
        &&& unique(self.participants)
        &&& unique(self.writers)
        &&& unique(self.readers)
        &&& unique(self.declared)
        &&& unique(self.admin)
        &&& nodes_wf(self.nodes)
        &&& participants_listed(self.participants, self.admin)
        &&& entities_listed(self.writers, self.admin, true)
        &&& entities_listed(self.readers, self.admin, false)
        &&& nodes_listed(self.nodes, self.admin)
    }

    /// The Writers, or the Readers.
    pub open spec fn entities(self, writer: bool) -> Seq<EntityView> {
        if writer {
            self.writers
        } else {
            self.readers
        }
    }

    /// All the same but for the Writers, or the Readers.
    pub open spec fn with_entities(self, writer: bool, entities: Seq<EntityView>) -> EntitiesView {
        if writer {
            EntitiesView { writers: entities, ..self }
        } else {
            EntitiesView { readers: entities, ..self }
        }
    }

    /// DDS reports a participant.
    pub open spec fn participant_added(self, participant: ParticipantView) -> EntitiesView {
        EntitiesView {
            participants: stored(self.participants, participant),
            admin: stored(self.admin, participant_entry(participant.key)),
            ..self
        }
    }

    /// A participant is gone, and its nodes with it.
    pub open spec fn participant_removed(self, gid: Gid) -> (EntitiesView, Seq<EventView>) {
        let admin = removed(self.admin, participant_key(gid));
        let (admin, events) = match lookup(self.nodes, gid) {
            Some(nodes) => nodes_gone(nodes.slots, admin, nodes.slots.len()),
            None => (admin, Seq::empty()),
        };
        (
            EntitiesView {
                participants: removed(self.participants, gid),
                nodes: removed(self.nodes, gid),
                admin,
                ..self
            },
            events,
        )
    }

    /// DDS reports a Writer, or a Reader.
    pub open spec fn entity_added(self, e: EntityView, writer: bool) -> (
        EntitiesView,
        Option<EventView>,
    ) {
        let (nodes, event) = nodes_awaited(self.nodes, e, writer, self.nodes.len());
        (
            EntitiesView {
                nodes,
                admin: stored(self.admin, entity_entry(e, writer)),
                ..self.with_entities(writer, stored(self.entities(writer), e))
            },
            event,
        )
    }

    /// A Writer, or a Reader, is gone.
    pub open spec fn entity_removed(self, gid: Gid, writer: bool) -> (
        EntitiesView,
        Option<EventView>,
    ) {
        match lookup(self.entities(writer), gid) {
            Some(e) => {
                let (nodes, event) = nodes_released(self.nodes, gid, writer, self.nodes.len());
                (
                    EntitiesView {
                        nodes,
                        admin: removed(self.admin, entity_key(e, writer)),
                        ..self.with_entities(writer, removed(self.entities(writer), gid))
                    },
                    event,
                )
            },
            None => (self, None),
        }
    }

    /// A participant declares its nodes.
    pub open spec fn participant_declared(self, info: ParticipantDeclView) -> (
        EntitiesView,
        Seq<EventView>,
    ) {
        let nodes = with_participant(self.nodes, info.gid);
        let p = place(nodes, info.gid);
        let slots = nodes[p].slots;
        let gone = leaving(slots, info.nodes, slots.len());
        let (admin, events) = nodes_gone(gone, self.admin, gone.len());
        let st = declaring_all(
            Declaring {
                slots: staying(slots, info.nodes, slots.len()),
                admin,
                events,
                stopped: false,
            },
            info.gid,
            info.nodes,
            self.readers,
            self.writers,
            orphan_owned(self.nodes),
            info.nodes.len(),
        );
        (
            EntitiesView {
                nodes: nodes.update(
                    p,
                    ParticipantNodesView { gid: nodes[p].gid, slots: st.slots },
                ),
                admin: st.admin,
                declared: stored(self.declared, info),
                ..self
            },
            st.events,
        )
    }

    /// The Writers that no node declares get an owner.
    pub open spec fn swept(self) -> (EntitiesView, Seq<EventView>) {
        let candidates = orphans(self.writers, self.nodes, self.writers.len());
        let st = adopted_all(
            Sweep { nodes: self.nodes, admin: self.admin, events: Seq::empty() },
            candidates,
            candidates.len(),
        );
        (EntitiesView { nodes: st.nodes, admin: st.admin, ..self }, st.events)
    }
}

// ---------------------------------------------------------------------------
// Queries on the admin space
// ---------------------------------------------------------------------------

/// Why a query on the admin space finds nothing at all.
#[derive(Clone, Copy, PartialEq, Eq, Structural, Debug)]
pub enum AdminQueryError {
    /// The selector or the prefix is no key expression.
    InvalidKeyExpr,
    /// The selector does not reach below the prefix.
    NotPrefixed,
}

/// Of the first `n` entries, those that the key expression `sub` meets.
pub open spec fn wild_matches(admin: Seq<AdminView>, sub: Seq<char>, n: nat) -> Seq<AdminView>
    decreases n,
{
    if n == 0 {
        Seq::empty()
    } else {
        let before = wild_matches(admin, sub, (n - 1) as nat);
        if keys_intersect(sub, admin[n - 1].key) == Some(true) {
            before.push(admin[n - 1])
        } else {
            before
        }
    }
}

/// The entries that `sub` asks for: all that it meets if it holds a wildcard,
/// else the one under that key.
pub open spec fn sub_matches(admin: Seq<AdminView>, sub: Seq<char>) -> Seq<AdminView> {
    if sub.contains('*') {
        wild_matches(admin, sub, admin.len())
    } else {
        match lookup(admin, sub) {
            Some(entry) => seq![entry],
            None => Seq::empty(),
        }
    }
}

/// The entries that the first `n` key expressions ask for.
pub open spec fn query_matches(admin: Seq<AdminView>, subs: Seq<Seq<char>>, n: nat) -> Seq<
    AdminView,
>
    decreases n,
{
    if n == 0 {
        Seq::empty()
    } else {
        query_matches(admin, subs, (n - 1) as nat) + sub_matches(admin, subs[n - 1])
    }
}

/// The entries that a selector asks for, where the keys of all entries have the
/// prefix in front.
pub open spec fn query_result(
    admin: Seq<AdminView>,
    selector: Seq<char>,
    prefix: Seq<char>,
) -> Result<Seq<AdminView>, AdminQueryError> {
    match prefix_stripped(selector, prefix) {
        Some(subs) => if subs.len() == 0 {
            Err(AdminQueryError::NotPrefixed)
        } else {
            Ok(query_matches(admin, subs, subs.len()))
        },
        None => Err(AdminQueryError::InvalidKeyExpr),
    }
}

/// The specification value of what an entry refers to.
pub enum EntityValueView {
    Participant(ParticipantView),
    Writer(EntityView),
    Reader(EntityView),
    Node(NodeView),
}

impl EntitiesView {
    /// What an entry refers to, unless it is gone.
    pub open spec fn resolved(self, entity: EntityRefView) -> Option<EntityValueView> {
        match entity {
            EntityRefView::Participant(gid) => match lookup(self.participants, gid) {
                Some(p) => Some(EntityValueView::Participant(p)),
                None => None,
            },
            EntityRefView::Writer(gid) => match lookup(self.writers, gid) {
                Some(e) => Some(EntityValueView::Writer(e)),
                None => None,
            },
            EntityRefView::Reader(gid) => match lookup(self.readers, gid) {
                Some(e) => Some(EntityValueView::Reader(e)),
                None => None,
            },
            EntityRefView::Node(gid, name) => match node_at(self.nodes, gid, name) {
                Some(node) => Some(EntityValueView::Node(node)),
                None => None,
            },
        }
    }
}

} // verus!
