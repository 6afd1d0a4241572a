//! A ROS 2 node and the interfaces that its DDS endpoints make up.
//!
//! A node owns endpoints. Those on the topics of one interface belong together,
//! and the interface is there when each of its parts has an endpoint: a
//! publisher needs one, a service two and an action eight.
use crate::admin_keys::{node_id, node_key};
use crate::dds::{DdsEntity, EntityView};
use crate::events::{event_in, event_of, EventView, ROS2DiscoveryEvent};
use crate::gid::Gid;
use crate::gid_set::GidHashSet;
use crate::key_expr::{field_fits, format_key, plain};
use crate::naming::{
    classify, full_name, full_name_of, role_of, InterfaceKind, Part, Role, RoleView,
};
use crate::table::views;
use crate::text::{join2, same_text};
use vstd::prelude::*;

verus! {

/// A DDS Writer or Reader in its role for a node.
#[derive(Debug)]
pub struct Endpoint {
    pub kind: InterfaceKind,
    pub part: Part,
    pub name: String,
    pub dds_type: String,
    pub writer: bool,
    pub gid: Gid,
}

/// The specification value of an [`Endpoint`].
pub struct EndpointView {
    pub kind: InterfaceKind,
    pub part: Part,
    pub name: Seq<char>,
    pub dds_type: Seq<char>,
    pub writer: bool,
    pub gid: Gid,
}

impl View for Endpoint {
    type V = EndpointView;

    open spec fn view(&self) -> EndpointView {
        EndpointView {
            kind: self.kind,
            part: self.part,
            name: self.name@,
            dds_type: self.dds_type@,
            writer: self.writer,
            gid: self.gid,
        }
    }
}

/// The specification value of a [`NodeInfo`].
pub struct NodeView {
    pub participant: Gid,
    pub namespace: Seq<char>,
    pub name: Seq<char>,
    pub endpoints: Seq<EndpointView>,
    pub undiscovered_readers: Seq<Gid>,
    pub undiscovered_writers: Seq<Gid>,
}

impl NodeView {
    /// The name of the node with its namespace in front.
    pub open spec fn fullname(self) -> Seq<char> {
        full_name(self.namespace, self.name)
    }

    /// The declared Writers (or Readers) that DDS has not reported yet.
    pub open spec fn undiscovered(self, writer: bool) -> Seq<Gid> {
        if writer {
            self.undiscovered_writers
        } else {
            self.undiscovered_readers
        }
    }

    /// The node with other Writers (or Readers) to wait for.
    pub open spec fn with_undiscovered(self, writer: bool, gids: Seq<Gid>) -> NodeView {
        if writer {
            NodeView { undiscovered_writers: gids, ..self }
        } else {
            NodeView { undiscovered_readers: gids, ..self }
        }
    }
}

/// A node without endpoints.
pub open spec fn new_node(namespace: Seq<char>, name: Seq<char>, participant: Gid) -> NodeView {
    NodeView {
        participant,
        namespace,
        name,
        endpoints: Seq::empty(),
        undiscovered_readers: Seq::empty(),
        undiscovered_writers: Seq::empty(),
    }
}

/// Whether an interface of the given kind has the given part.
pub open spec fn needed(kind: InterfaceKind, part: Part) -> bool {
    match kind {
        InterfaceKind::MsgPub | InterfaceKind::MsgSub => part == Part::Message,
        InterfaceKind::ServiceSrv | InterfaceKind::ServiceCli => part == Part::Request || part
            == Part::Reply,
        InterfaceKind::ActionSrv | InterfaceKind::ActionCli => part != Part::Message && part
            != Part::Request && part != Part::Reply,
    }
}

/// Whether the endpoint is the given part of the interface.
pub open spec fn serves(e: EndpointView, kind: InterfaceKind, name: Seq<char>, part: Part) -> bool {
    e.kind == kind && e.name == name && e.part == part
}

/// Whether some endpoint is the given part of the interface.
pub open spec fn part_there(
    endpoints: Seq<EndpointView>,
    kind: InterfaceKind,
    name: Seq<char>,
    part: Part,
) -> bool {
    exists|i: int|
        0 <= i < endpoints.len() && serves(#[trigger] endpoints[i], kind, name, part)
}

/// Whether every part of the interface is there.
pub open spec fn complete(
    endpoints: Seq<EndpointView>,
    kind: InterfaceKind,
    name: Seq<char>,
) -> bool {
    forall|part: Part| needed(kind, part) ==> #[trigger] part_there(endpoints, kind, name, part)
}

/// Whether the endpoint with the identifier `gid` is known in the given role.
pub open spec fn registered(endpoints: Seq<EndpointView>, role: RoleView, gid: Gid) -> bool {
    exists|i: int|
        0 <= i < endpoints.len() && serves(#[trigger] endpoints[i], role.kind, role.name, role.part)
            && endpoints[i].gid == gid
}

/// The endpoint that `entity` is in the given role.
pub open spec fn endpoint_of(entity: EntityView, role: RoleView, writer: bool) -> EndpointView {
    EndpointView {
        kind: role.kind,
        part: role.part,
        name: role.name,
        dds_type: entity.dds_type,
        writer,
        gid: entity.key,
    }
}

/// The event about the interface that an endpoint of a node belongs to.
pub open spec fn event_about(node: NodeView, e: EndpointView, discovered: bool) -> EventView {
    EventView {
        discovered,
        kind: e.kind,
        node: node.fullname(),
        name: e.name,
        dds_type: e.dds_type,
    }
}

/// The node, and the event if there is one, once a Writer (or a Reader) of the
/// node is known. The event comes when the last missing part of an interface
/// is there.
pub open spec fn updated(node: NodeView, entity: EntityView, writer: bool) -> (
    NodeView,
    Option<EventView>,
) {
    match role_of(entity.topic_name, writer) {
        Some(role) => if registered(node.endpoints, role, entity.key) {
            (node, None)
        } else {
            let e = endpoint_of(entity, role, writer);
            let endpoints = node.endpoints.push(e);
            (
                NodeView { endpoints, ..node },
                if complete(endpoints, role.kind, role.name) && !complete(
                    node.endpoints,
                    role.kind,
                    role.name,
                ) {
                    Some(event_about(node, e, true))
                } else {
                    None
                },
            )
        },
        None => (node, None),
    }
}

/// The node, and the event if there is one, once DDS reports a Writer (or a
/// Reader) that the node has declared before.
pub open spec fn awaited(node: NodeView, entity: EntityView, writer: bool) -> (
    NodeView,
    Option<EventView>,
) {
    updated(
        node.with_undiscovered(writer, node.undiscovered(writer).remove_value(entity.key)),
        entity,
        writer,
    )
}

/// Whether the endpoint is the Writer (or the Reader) with the identifier `gid`.
pub open spec fn is_endpoint(e: EndpointView, gid: Gid, writer: bool) -> bool {
    e.writer == writer && e.gid == gid
}

/// The endpoints without the Writer (or the Reader) with the identifier `gid`.
pub open spec fn endpoints_without(
    endpoints: Seq<EndpointView>,
    gid: Gid,
    writer: bool,
) -> Seq<EndpointView> {
    endpoints.filter(|e: EndpointView| !is_endpoint(e, gid, writer))
}

/// Among the first `n` endpoints of the node, the first one that leaves its
/// interface incomplete by its going.
pub open spec fn first_lost(node: NodeView, gid: Gid, writer: bool, n: nat) -> Option<EventView>
    decreases n,
{
    if n == 0 {
        None
    } else {
        let before = first_lost(node, gid, writer, (n - 1) as nat);
        let e = node.endpoints[n - 1];
        if before is Some {
            before
        } else if is_endpoint(e, gid, writer) && complete(node.endpoints, e.kind, e.name)
            && !complete(endpoints_without(node.endpoints, gid, writer), e.kind, e.name) {
            Some(event_about(node, e, false))
        } else {
            None
        }
    }
}

/// The node, and the event if there is one, once a Writer (or a Reader) is gone.
/// The event comes when an interface loses a part.
pub open spec fn released(node: NodeView, gid: Gid, writer: bool) -> (NodeView, Option<EventView>) {
    (
        NodeView { endpoints: endpoints_without(node.endpoints, gid, writer), ..node },
        first_lost(node, gid, writer, node.endpoints.len()),
    )
}

/// Whether one of the first `n` endpoints belongs to the interface.
pub open spec fn interface_before(
    endpoints: Seq<EndpointView>,
    kind: InterfaceKind,
    name: Seq<char>,
    n: int,
) -> bool {
    exists|i: int|
        0 <= i < n && (#[trigger] endpoints[i]).kind == kind && endpoints[i].name == name
}

/// The events that the complete interfaces among the first `n` endpoints end,
/// one for each interface.
pub open spec fn ends(node: NodeView, n: nat) -> Seq<EventView>
    decreases n,
{
    if n == 0 {
        Seq::empty()
    } else {
        let before = ends(node, (n - 1) as nat);
        let e = node.endpoints[n - 1];
        if complete(node.endpoints, e.kind, e.name) && !interface_before(
            node.endpoints,
            e.kind,
            e.name,
            n - 1,
        ) {
            before.push(event_about(node, e, false))
        } else {
            before
        }
    }
}

/// The events that the end of the node causes.
pub open spec fn all_ends(node: NodeView) -> Seq<EventView> {
    ends(node, node.endpoints.len())
}

/// Whether the Writer `gid` is one of the node's message publishers.
pub open spec fn owns_msg_writer(node: NodeView, gid: Gid) -> bool {
    exists|i: int|
        0 <= i < node.endpoints.len() && (#[trigger] node.endpoints[i]).kind
            == InterfaceKind::MsgPub && node.endpoints[i].gid == gid
}

/// Every message publisher of the node is a Writer.
pub open spec fn publishers_write(node: NodeView) -> bool {
    forall|i: int|
        0 <= i < node.endpoints.len() && (#[trigger] node.endpoints[i]).kind
            == InterfaceKind::MsgPub ==> node.endpoints[i].writer
}

/// Whether the node has declared the Writer `gid`, as far as messages go.
pub open spec fn claims_writer(node: NodeView, gid: Gid) -> bool {
    node.undiscovered_writers.contains(gid) || owns_msg_writer(node, gid)
}

/// What stays the same of a node. It can stand in a key expression.
#[derive(Debug)]
struct NodeIdentity {
    participant: Gid,
    namespace: String,
    name: String,
    fullname: String,
}

impl NodeIdentity {
    #[verifier::type_invariant]
    spec fn id_fits(self) -> bool {
        self.fullname@ == full_name(self.namespace@, self.name@) && field_fits(
            node_id(self.participant, self.fullname@),
        )
    }
}

/// A ROS 2 node.
#[derive(Debug)]
pub struct NodeInfo {
    identity: NodeIdentity,
    endpoints: Vec<Endpoint>,
    undiscovered_reader: Vec<Gid>,
    undiscovered_writer: Vec<Gid>,
}

impl View for NodeInfo {
    type V = NodeView;

    closed spec fn view(&self) -> NodeView {
        NodeView {
            participant: self.identity.participant,
            namespace: self.identity.namespace@,
            name: self.identity.name@,
            endpoints: views(self.endpoints@),
            undiscovered_readers: self.undiscovered_reader@,
            undiscovered_writers: self.undiscovered_writer@,
        }
    }
}

/// The place of the first `gid` in `gids`.
fn position(gids: &Vec<Gid>, gid: &Gid) -> (r: Option<usize>)
    ensures
        r is Some == gids@.contains(*gid),
        r matches Some(i) ==> i < gids@.len() && gids@.remove(i as int) == gids@.remove_value(*gid),
{
    for i in 0..gids.len()
        invariant
            forall|j: int| 0 <= j < i ==> gids@[j] != *gid,
    {
        if gids[i] == *gid {
            proof {
                gids@.index_of_first_ensures(*gid);
            }
            return Some(i);
        }
    }
    None
}

/// Whether some endpoint is the given part of the interface.
fn has_part(endpoints: &Vec<Endpoint>, kind: InterfaceKind, name: &str, part: Part) -> (r: bool)
    ensures
        r == part_there(views(endpoints@), kind, name@, part),
{
    for i in 0..endpoints.len()
        invariant
            forall|j: int|
                0 <= j < i ==> !serves(#[trigger] views(endpoints@)[j], kind, name@, part),
    {
        assert(views(endpoints@)[i as int] == endpoints@[i as int]@);
        if endpoints[i].kind == kind && endpoints[i].part == part && same_text(
            &endpoints[i].name,
            name,
        ) {
            return true;
        }
    }
    false
}

/// Whether every part of the interface is there.
fn is_complete(endpoints: &Vec<Endpoint>, kind: InterfaceKind, name: &str) -> (r: bool)
    ensures
        r == complete(views(endpoints@), kind, name@),
{
    let ghost eps = views(endpoints@);
    let r = match kind {
        InterfaceKind::MsgPub | InterfaceKind::MsgSub => has_part(
            endpoints,
            kind,
            name,
            Part::Message,
        ),
        InterfaceKind::ServiceSrv | InterfaceKind::ServiceCli => has_part(
            endpoints,
            kind,
            name,
            Part::Request,
        ) && has_part(endpoints, kind, name, Part::Reply),
        InterfaceKind::ActionSrv | InterfaceKind::ActionCli => has_part(
            endpoints,
            kind,
            name,
            Part::SendGoalRequest,
        ) && has_part(endpoints, kind, name, Part::SendGoalReply) && has_part(
            endpoints,
            kind,
            name,
            Part::CancelGoalRequest,
        ) && has_part(endpoints, kind, name, Part::CancelGoalReply) && has_part(
            endpoints,
            kind,
            name,
            Part::GetResultRequest,
        ) && has_part(endpoints, kind, name, Part::GetResultReply) && has_part(
            endpoints,
            kind,
            name,
            Part::Status,
        ) && has_part(endpoints, kind, name, Part::Feedback),
    };
    proof {
        if complete(eps, kind, name@) {
            assert(needed(kind, Part::Message) ==> part_there(eps, kind, name@, Part::Message));
            assert(needed(kind, Part::Request) ==> part_there(eps, kind, name@, Part::Request));
            assert(needed(kind, Part::Reply) ==> part_there(eps, kind, name@, Part::Reply));
            assert(needed(kind, Part::SendGoalRequest) ==> part_there(
                eps,
                kind,
                name@,
                Part::SendGoalRequest,
            ));
            assert(needed(kind, Part::SendGoalReply) ==> part_there(
                eps,
                kind,
                name@,
                Part::SendGoalReply,
            ));
            assert(needed(kind, Part::CancelGoalRequest) ==> part_there(
                eps,
                kind,
                name@,
                Part::CancelGoalRequest,
            ));
            assert(needed(kind, Part::CancelGoalReply) ==> part_there(
                eps,
                kind,
                name@,
                Part::CancelGoalReply,
            ));
            assert(needed(kind, Part::GetResultRequest) ==> part_there(
                eps,
                kind,
                name@,
                Part::GetResultRequest,
            ));
            assert(needed(kind, Part::GetResultReply) ==> part_there(
                eps,
                kind,
                name@,
                Part::GetResultReply,
            ));
            assert(needed(kind, Part::Status) ==> part_there(eps, kind, name@, Part::Status));
            assert(needed(kind, Part::Feedback) ==> part_there(eps, kind, name@, Part::Feedback));
        }
    }
    r
}

/// Whether the endpoint with the identifier `gid` is known in the given role.
fn is_registered(endpoints: &Vec<Endpoint>, role: &Role, gid: &Gid) -> (r: bool)
    ensures
        r == registered(views(endpoints@), role@, *gid),
{
    for i in 0..endpoints.len()
        invariant
            forall|j: int|
                0 <= j < i ==> !(serves(
                    #[trigger] views(endpoints@)[j],
                    role.kind,
                    role.name@,
                    role.part,
                ) && views(endpoints@)[j].gid == *gid),
    {
        assert(views(endpoints@)[i as int] == endpoints@[i as int]@);
        if endpoints[i].kind == role.kind && endpoints[i].part == role.part && endpoints[i].gid
            == *gid && same_text(&endpoints[i].name, &role.name) {
            return true;
        }
    }
    false
}

impl NodeInfo {
    /// A node without endpoints, unless its name cannot stand in a key
    /// expression. It can where its identifier is plain.
    pub fn create(namespace: String, name: String, participant: Gid) -> (r: Result<
        NodeInfo,
        String,
    >)
        ensures
            r is Ok == field_fits(node_id(participant, full_name(namespace@, name@))),
            plain(node_id(participant, full_name(namespace@, name@))) ==> r is Ok,
            r matches Ok(node) ==> node@ == new_node(namespace@, name@, participant),
            r matches Err(e) ==> e@ == "not a valid key expression: "@ + node_id(
                participant,
                full_name(namespace@, name@),
            ),
    {
        let fullname = full_name_of(&namespace, &name);
        let id = join2(&participant.to_hex(), &fullname);
        proof {
            reveal_strlit("node");
        }
        match format_key("node", &id) {
            Some(_) => {
                let endpoints: Vec<Endpoint> = Vec::new();
                assert(views(endpoints@) =~= Seq::empty());
                Ok(
                    NodeInfo {
                        identity: NodeIdentity { participant, namespace, name, fullname },
                        endpoints,
                        undiscovered_reader: Vec::new(),
                        undiscovered_writer: Vec::new(),
                    },
                )
            },
            None => Err(join2("not a valid key expression: ", &id)),
        }
    }

    /// The name of the node with its namespace in front.
    pub fn fullname(&self) -> (r: &str)
        ensures
            r@ == self@.fullname(),
    {
        proof {
            use_type_invariant(&self.identity);
        }
        &self.identity.fullname
    }

    /// What identifies the node among those of all participants.
    pub fn id(&self) -> (r: String)
        ensures
            r@ == node_id(self@.participant, self@.fullname()),
    {
        join2(&self.identity.participant.to_hex(), self.fullname())
    }

    /// Where the node stands in the admin space.
    pub fn admin_key(&self) -> (r: String)
        ensures
            r@ == node_key(self@.participant, self@.fullname()),
    {
        let id = self.id();
        proof {
            reveal_strlit("node");
            use_type_invariant(&self.identity);
        }
        match format_key("node", &id) {
            Some(key) => key,
            None => id,
        }
    }

    pub fn participant(&self) -> (r: Gid)
        ensures
            r == self@.participant,
    {
        self.identity.participant
    }

    pub fn namespace(&self) -> (r: &str)
        ensures
            r@ == self@.namespace,
    {
        &self.identity.namespace
    }

    pub fn name(&self) -> (r: &str)
        ensures
            r@ == self@.name,
    {
        &self.identity.name
    }

    /// The declared Writers (or Readers) that DDS has not reported yet.
    pub fn undiscovered(&self, writer: bool) -> (r: &Vec<Gid>)
        ensures
            r@ == self@.undiscovered(writer),
    {
        if writer {
            &self.undiscovered_writer
        } else {
            &self.undiscovered_reader
        }
    }

    /// The endpoints of the node.
    pub fn endpoints(&self) -> (r: &Vec<Endpoint>)
        ensures
            views(r@) == self@.endpoints,
    {
        &self.endpoints
    }

    fn update(&mut self, entity: &DdsEntity, writer: bool) -> (r: Option<ROS2DiscoveryEvent>)
        ensures
            (final(self)@, event_in(r)) == updated(old(self)@, entity@, writer),
    {
        let role = match classify(entity.topic_name(), writer) {
            Some(role) => role,
            None => {
                return None;
            },
        };
        if is_registered(&self.endpoints, &role, &entity.key()) {
            return None;
        }
        let was_complete = is_complete(&self.endpoints, role.kind, &role.name);
        let ghost before = self.endpoints@;
        let endpoint = Endpoint {
            kind: role.kind,
            part: role.part,
            name: role.name.clone(),
            dds_type: entity.dds_type().to_owned(),
            writer,
            gid: entity.key(),
        };
        let ghost e = endpoint@;
        self.endpoints.push(endpoint);
        assert(views(self.endpoints@) =~= views(before).push(e));
        if !was_complete && is_complete(&self.endpoints, role.kind, &role.name) {
            Some(
                event_of(
                    true,
                    role.kind,
                    self.fullname().to_owned(),
                    role.name,
                    entity.dds_type().to_owned(),
                ),
            )
        } else {
            None
        }
    }

    /// Takes note of a Writer of the node.
    pub fn update_with_writer(&mut self, writer: &DdsEntity) -> (r: Option<ROS2DiscoveryEvent>)
        ensures
            (final(self)@, event_in(r)) == updated(old(self)@, writer@, true),
    {
        self.update(writer, true)
    }

    /// Takes note of a Reader of the node.
    pub fn update_with_reader(&mut self, reader: &DdsEntity) -> (r: Option<ROS2DiscoveryEvent>)
        ensures
            (final(self)@, event_in(r)) == updated(old(self)@, reader@, false),
    {
        self.update(reader, false)
    }

    /// Whether the node waits for the Writer (or the Reader) `gid`.
    pub fn awaits(&self, gid: &Gid, writer: bool) -> (r: bool)
        ensures
            r == self@.undiscovered(writer).contains(*gid),
    {
        if writer {
            position(&self.undiscovered_writer, gid).is_some()
        } else {
            position(&self.undiscovered_reader, gid).is_some()
        }
    }

    /// Takes note that the node waits for the Writer (or the Reader) `gid`.
    pub fn await_entity(&mut self, gid: Gid, writer: bool)
        ensures
            final(self)@ == old(self)@.with_undiscovered(
                writer,
                old(self)@.undiscovered(writer).push(gid),
            ),
    {
        if writer {
            self.undiscovered_writer.push(gid);
        } else {
            self.undiscovered_reader.push(gid);
        }
    }

    /// Takes note of a Writer (or a Reader) that the node waits for.
    pub fn discover(&mut self, entity: &DdsEntity, writer: bool) -> (r: Option<ROS2DiscoveryEvent>)
        ensures
            (final(self)@, event_in(r)) == awaited(old(self)@, entity@, writer),
    {
        let gid = entity.key();
        proof {
            self.undiscovered_writer@.index_of_first_ensures(gid);
            self.undiscovered_reader@.index_of_first_ensures(gid);
        }
        if writer {
            if let Some(i) = position(&self.undiscovered_writer, &gid) {
                self.undiscovered_writer.remove(i);
            }
        } else {
            if let Some(i) = position(&self.undiscovered_reader, &gid) {
                self.undiscovered_reader.remove(i);
            }
        }
        self.update(entity, writer)
    }

    fn remove(&mut self, gid: &Gid, writer: bool) -> (r: Option<ROS2DiscoveryEvent>)
        ensures
            (final(self)@, event_in(r)) == released(old(self)@, *gid, writer),
    {
        let ghost node = self@;
        let ghost all = views(self.endpoints@);
        let ghost keep = |e: EndpointView| !is_endpoint(e, *gid, writer);
        let mut before: Vec<Endpoint> = Vec::new();
        std::mem::swap(&mut before, &mut self.endpoints);
        let mut after: Vec<Endpoint> = Vec::new();
        let n: usize = before.len();
        proof {
            reveal(Seq::filter);
            assert(views(after@) =~= all.take(0).filter(keep));
        }
        for i in 0..n
            invariant
                n == before@.len(),
                all == views(before@),
                keep == (|e: EndpointView| !is_endpoint(e, *gid, writer)),
                views(after@) == all.take(i as int).filter(keep),
        {
            let ghost kept = after@;
            proof {
                reveal(Seq::filter);
                assert(all.take(i + 1).drop_last() =~= all.take(i as int));
                assert(all.take(i + 1).last() == before@[i as int]@);
            }
            if before[i].writer != writer || before[i].gid != *gid {
                let copy = Endpoint {
                    kind: before[i].kind,
                    part: before[i].part,
                    name: before[i].name.clone(),
                    dds_type: before[i].dds_type.clone(),
                    writer: before[i].writer,
                    gid: before[i].gid,
                };
                let ghost e = copy@;
                after.push(copy);
                assert(views(after@) =~= views(kept).push(e));
            }
        }
        assert(all.take(n as int) =~= all);
        let mut event: Option<ROS2DiscoveryEvent> = None;
        for i in 0..n
            invariant
                n == before@.len(),
                all == views(before@),
                node.endpoints == all,
                views(after@) == endpoints_without(all, *gid, writer),
                node.namespace == self.identity.namespace@,
                node.name == self.identity.name@,
                event_in(event) == first_lost(node, *gid, writer, i as nat),
                self.identity == old(self).identity,
                self.undiscovered_reader == old(self).undiscovered_reader,
                self.undiscovered_writer == old(self).undiscovered_writer,
        {
            assert(all[i as int] == before@[i as int]@);
            let e = &before[i];
            if event.is_none() && e.writer == writer && e.gid == *gid && is_complete(
                &before,
                e.kind,
                &e.name,
            ) && !is_complete(&after, e.kind, &e.name) {
                event = Some(
                    event_of(
                        false,
                        e.kind,
                        self.fullname().to_owned(),
                        e.name.clone(),
                        e.dds_type.clone(),
                    ),
                );
            }
        }
        self.endpoints = after;
        event
    }

    /// Forgets the Writer `gid`.
    pub fn remove_writer(&mut self, gid: &Gid) -> (r: Option<ROS2DiscoveryEvent>)
        ensures
            (final(self)@, event_in(r)) == released(old(self)@, *gid, true),
    {
        self.remove(gid, true)
    }

    /// Forgets the Reader `gid`.
    pub fn remove_reader(&mut self, gid: &Gid) -> (r: Option<ROS2DiscoveryEvent>)
        ensures
            (final(self)@, event_in(r)) == released(old(self)@, *gid, false),
    {
        self.remove(gid, false)
    }

    /// Forgets all the endpoints, and tells which interfaces end by that.
    pub fn remove_all_entities(&mut self) -> (r: Vec<ROS2DiscoveryEvent>)
        ensures
            views(r@) == all_ends(old(self)@),
            final(self)@ == (NodeView { endpoints: Seq::empty(), ..old(self)@ }),
    {
        let ghost node = self@;
        let ghost all = views(self.endpoints@);
        let mut events: Vec<ROS2DiscoveryEvent> = Vec::new();
        let n: usize = self.endpoints.len();
        assert(views(events@) =~= Seq::empty());
        for i in 0..n
            invariant
                n == self.endpoints@.len(),
                self@ == node,
                *self == *old(self),
                all == views(self.endpoints@),
                node.endpoints == all,
                views(events@) == ends(node, i as nat),
        {
            assert(all[i as int] == self.endpoints@[i as int]@);
            let e = &self.endpoints[i];
            let mut first: bool = true;
            for j in 0..i
                invariant
                    i < n,
                    n == self.endpoints@.len(),
                    all == views(self.endpoints@),
                    e == self.endpoints@[i as int],
                    first == !interface_before(all, e.kind, e.name@, j as int),
            {
                assert(all[j as int] == self.endpoints@[j as int]@);
                if self.endpoints[j].kind == e.kind && same_text(&self.endpoints[j].name, &e.name) {
                    first = false;
                }
            }
            if first && is_complete(&self.endpoints, e.kind, &e.name) {
                let event = event_of(
                    false,
                    e.kind,
                    self.fullname().to_owned(),
                    e.name.clone(),
                    e.dds_type.clone(),
                );
                let ghost pushed = events@;
                let ghost v = event@;
                events.push(event);
                assert(views(events@) =~= views(pushed).push(v));
            }
        }
        self.endpoints = Vec::new();
        assert(views(self.endpoints@) =~= Seq::empty());
        events
    }

    /// Adds the Writers of the node's message publishers to a set.
    pub fn collect_msg_writers(&self, gids: &mut GidHashSet)
        ensures
            forall|gid: Gid| #[trigger]
                final(gids)@.contains(gid) == (old(gids)@.contains(gid) || owns_msg_writer(
                    self@,
                    gid,
                )),
    {
        let ghost all = views(self.endpoints@);
        for i in 0..self.endpoints.len()
            invariant
                all == views(self.endpoints@),
                forall|gid: Gid| #[trigger]
                    gids@.contains(gid) == (old(gids)@.contains(gid) || exists|j: int|
                        0 <= j < i && (#[trigger] all[j]).kind == InterfaceKind::MsgPub
                            && all[j].gid == gid),
        {
            let ghost before = gids@;
            assert(all[i as int] == self.endpoints@[i as int]@);
            if self.endpoints[i].kind == InterfaceKind::MsgPub {
                gids.insert(self.endpoints[i].gid);
            }
            assert forall|gid: Gid| #[trigger]
                gids@.contains(gid) == (old(gids)@.contains(gid) || exists|j: int|
                    0 <= j < i + 1 && (#[trigger] all[j]).kind == InterfaceKind::MsgPub
                        && all[j].gid == gid) by {
                if before.contains(gid) && !old(gids)@.contains(gid) {
                    let j = choose|j: int|
                        0 <= j < i && (#[trigger] all[j]).kind == InterfaceKind::MsgPub
                            && all[j].gid == gid;
                    assert(all[j].gid == gid);
                }
            }
        }
    }

    /// Adds the Writers that the node waits for to a set.
    pub fn collect_awaited_writers(&self, gids: &mut GidHashSet)
        ensures
            forall|gid: Gid| #[trigger]
                final(gids)@.contains(gid) == (old(gids)@.contains(gid)
                    || self@.undiscovered_writers.contains(gid)),
    {
        let ghost all = self.undiscovered_writer@;
        for i in 0..self.undiscovered_writer.len()
            invariant
                all == self.undiscovered_writer@,
                forall|gid: Gid| #[trigger]
                    gids@.contains(gid) == (old(gids)@.contains(gid) || exists|j: int|
                        0 <= j < i && #[trigger] all[j] == gid),
        {
            let ghost before = gids@;
            gids.insert(self.undiscovered_writer[i]);
            assert forall|gid: Gid| #[trigger]
                gids@.contains(gid) == (old(gids)@.contains(gid) || exists|j: int|
                    0 <= j < i + 1 && #[trigger] all[j] == gid) by {
                assert(all[i as int] == self.undiscovered_writer@[i as int]);
                if before.contains(gid) && !old(gids)@.contains(gid) {
                    let j = choose|j: int| 0 <= j < i && #[trigger] all[j] == gid;
                    assert(all[j] == gid);
                }
            }
        }
    }

    /// Whether the Writer `gid` is one of the node's message publishers.
    pub fn owns_msg_writer(&self, gid: &Gid) -> (r: bool)
        ensures
            r == owns_msg_writer(self@, *gid),
    {
        let ghost all = views(self.endpoints@);
        for i in 0..self.endpoints.len()
            invariant
                all == views(self.endpoints@),
                forall|j: int|
                    0 <= j < i ==> !((#[trigger] all[j]).kind == InterfaceKind::MsgPub
                        && all[j].gid == *gid),
        {
            assert(all[i as int] == self.endpoints@[i as int]@);
            if self.endpoints[i].kind == InterfaceKind::MsgPub && self.endpoints[i].gid == *gid {
                return true;
            }
        }
        false
    }
}

/// An endpoint is read as it is.
pub proof fn law_endpoint_is_read_as_it_is(e: Endpoint)
    ensures
        e@.kind == e.kind,
        e@.part == e.part,
        e@.name == e.name@,
        e@.dds_type == e.dds_type@,
        e@.writer == e.writer,
        e@.gid == e.gid,
{
}

} // verus!
