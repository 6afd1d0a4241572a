//! What is known about participants and nodes, in words.
use crate::discovery_model::{AdminView, EntitiesView, ParticipantNodesView, SlotView};
use crate::gid::Gid;
use crate::naming::{InterfaceKind, Part};
use crate::node_info::{Endpoint, EndpointView, NodeInfo, NodeView};
use crate::ros_discovery::{
    GidSet, NodeDeclView, NodeEntitiesInfo, ParticipantDeclView, ParticipantEntitiesInfo,
};
use crate::table::{views, HasKey};
use crate::text::{
    braced_of, braced_text, has_part, join3, list_of, list_text, listed, occurs_at, quote, quoted,
    texts_of,
};
use vstd::prelude::*;

verus! {

/// The identifiers as texts.
pub open spec fn gid_texts(gids: Seq<Gid>) -> Seq<Seq<char>> {
    gids.map_values(|gid: Gid| gid.hex())
}

/// An entry of a map.
pub open spec fn entry_text(key: Seq<char>, value: Seq<char>) -> Seq<char> {
    key + ": "@ + value
}

/// A key expression.
pub open spec fn key_expr_text(key: Seq<char>) -> Seq<char> {
    "ke`"@ + key + "`"@
}

/// What a node declares.
pub open spec fn node_decl_text(decl: NodeDeclView) -> Seq<char> {
    "NodeEntitiesInfo { node_namespace: "@ + quoted(decl.namespace) + ", node_name: "@ + quoted(
        decl.name,
    ) + ", reader_gid_seq: "@ + braced_text(gid_texts(decl.readers)) + ", writer_gid_seq: "@
        + braced_text(gid_texts(decl.writers)) + " }"@
}

/// What nodes declare, by full name.
pub open spec fn node_decl_entries(nodes: Seq<NodeDeclView>) -> Seq<Seq<char>> {
    nodes.map_values(|decl: NodeDeclView| entry_text(quoted(decl.key()), node_decl_text(decl)))
}

/// What a participant declares.
pub open spec fn participant_decl_text(info: ParticipantDeclView) -> Seq<char> {
    "ParticipantEntitiesInfo { gid: "@ + info.gid.hex() + ", node_entities_info_seq: "@
        + braced_text(node_decl_entries(info.nodes)) + " }"@
}

/// What participants declare, by identifier.
pub open spec fn declared_entries(declared: Seq<ParticipantDeclView>) -> Seq<Seq<char>> {
    declared.map_values(
        |info: ParticipantDeclView| entry_text(info.gid.hex(), participant_decl_text(info)),
    )
}

pub open spec fn kind_text(kind: InterfaceKind) -> Seq<char> {
    match kind {
        InterfaceKind::MsgPub => "MsgPub"@,
        InterfaceKind::MsgSub => "MsgSub"@,
        InterfaceKind::ServiceSrv => "ServiceSrv"@,
        InterfaceKind::ServiceCli => "ServiceCli"@,
        InterfaceKind::ActionSrv => "ActionSrv"@,
        InterfaceKind::ActionCli => "ActionCli"@,
    }
}

pub open spec fn part_text(part: Part) -> Seq<char> {
    match part {
        Part::Message => "Message"@,
        Part::Request => "Request"@,
        Part::Reply => "Reply"@,
        Part::SendGoalRequest => "SendGoalRequest"@,
        Part::SendGoalReply => "SendGoalReply"@,
        Part::CancelGoalRequest => "CancelGoalRequest"@,
        Part::CancelGoalReply => "CancelGoalReply"@,
        Part::GetResultRequest => "GetResultRequest"@,
        Part::GetResultReply => "GetResultReply"@,
        Part::Status => "Status"@,
        Part::Feedback => "Feedback"@,
    }
}

pub open spec fn flag_text(flag: bool) -> Seq<char> {
    if flag {
        "true"@
    } else {
        "false"@
    }
}

/// An endpoint of a node.
pub open spec fn endpoint_text(e: EndpointView) -> Seq<char> {
    "Endpoint { kind: "@ + kind_text(e.kind) + ", part: "@ + part_text(e.part) + ", name: "@
        + quoted(e.name) + ", dds_type: "@ + quoted(e.dds_type) + ", writer: "@ + flag_text(
        e.writer,
    ) + ", gid: "@ + e.gid.hex() + " }"@
}

pub open spec fn endpoint_texts(endpoints: Seq<EndpointView>) -> Seq<Seq<char>> {
    endpoints.map_values(|e: EndpointView| endpoint_text(e))
}

/// A node.
pub open spec fn node_text(node: NodeView) -> Seq<char> {
    "NodeInfo { participant: "@ + node.participant.hex() + ", namespace: "@ + quoted(
        node.namespace,
    ) + ", name: "@ + quoted(node.name) + ", endpoints: "@ + list_text(
        endpoint_texts(node.endpoints),
    ) + ", undiscovered_reader: "@ + list_text(gid_texts(node.undiscovered_readers))
        + ", undiscovered_writer: "@ + list_text(gid_texts(node.undiscovered_writers)) + " }"@
}

/// Nodes, by the name that they are filed by.
pub open spec fn slot_entries(slots: Seq<SlotView>) -> Seq<Seq<char>> {
    slots.map_values(|slot: SlotView| entry_text(quoted(slot.name), node_text(slot.node)))
}

/// The nodes of participants, by identifier.
pub open spec fn nodes_entries(nodes: Seq<ParticipantNodesView>) -> Seq<Seq<char>> {
    nodes.map_values(
        |p: ParticipantNodesView| entry_text(p.gid.hex(), braced_text(slot_entries(p.slots))),
    )
}

impl EntitiesView {
    /// What is known, in words: the identifiers of participants, Writers and
    /// Readers, what is declared, the nodes, and the keys of the admin space.
    pub open spec fn description(self) -> Seq<char> {
        "participants: "@ + list_text(
            Seq::new(self.participants.len(), |i: int| self.participants[i].key.hex()),
        ) + "\nwriters: "@ + list_text(
            Seq::new(self.writers.len(), |i: int| self.writers[i].key.hex()),
        ) + "\nreaders: "@ + list_text(
            Seq::new(self.readers.len(), |i: int| self.readers[i].key.hex()),
        ) + "\nros_participant_info: "@ + braced_text(declared_entries(self.declared))
            + "\nnodes_info: "@ + braced_text(nodes_entries(self.nodes)) + "\nadmin_space: "@
            + list_text(
            self.admin.map_values(|entry: AdminView| key_expr_text(entry.key)),
        ) + "\n"@
    }
}

/// The identifiers as texts.
fn gid_texts_of(gids: &Vec<Gid>) -> (r: Vec<String>)
    ensures
        texts_of(r@) == gid_texts(gids@),
{
    let mut texts: Vec<String> = Vec::new();
    for i in 0..gids.len()
        invariant
            texts@.len() == i,
            forall|j: int| 0 <= j < i ==> (#[trigger] texts@[j])@ == gids@[j].hex(),
    {
        texts.push(gids[i].to_hex());
    }
    assert(texts_of(texts@) =~= gid_texts(gids@));
    texts
}

fn gid_set_texts(gids: &GidSet) -> (r: Vec<String>)
    ensures
        texts_of(r@) == gid_texts(gids@),
{
    let mut texts: Vec<String> = Vec::new();
    let n: usize = gids.len();
    for i in 0..n
        invariant
            n == gids@.len(),
            texts@.len() == i,
            forall|j: int| 0 <= j < i ==> (#[trigger] texts@[j])@ == gids@[j].hex(),
    {
        texts.push(gids.get(i).to_hex());
    }
    assert(texts_of(texts@) =~= gid_texts(gids@));
    texts
}

fn describe_node_decl(decl: &NodeEntitiesInfo) -> (r: String)
    ensures
        r@ == node_decl_text(decl@),
{
    let mut r: String = "NodeEntitiesInfo { node_namespace: ".to_owned();
    r.append(&quote(&decl.node_namespace));
    r.append(", node_name: ");
    r.append(&quote(&decl.node_name));
    r.append(", reader_gid_seq: ");
    r.append(&braced_of(&gid_set_texts(&decl.reader_gid_seq)));
    r.append(", writer_gid_seq: ");
    r.append(&braced_of(&gid_set_texts(&decl.writer_gid_seq)));
    r.append(" }");
    r
}

pub(crate) fn describe_participant_decl(info: &ParticipantEntitiesInfo) -> (r: String)
    ensures
        r@ == participant_decl_text(info@),
{
    let nodes = &info.node_entities_info_seq;
    let mut entries: Vec<String> = Vec::new();
    let n: usize = nodes.len();
    for i in 0..n
        invariant
            n == nodes@.len(),
            entries@.len() == i,
            forall|j: int|
                0 <= j < i ==> (#[trigger] entries@[j])@ == node_decl_entries(nodes@)[j],
    {
        let decl = nodes.get(i);
        entries.push(join3(&quote(&decl.full_name()), ": ", &describe_node_decl(decl)));
    }
    assert(texts_of(entries@) =~= node_decl_entries(nodes@));
    let mut r: String = "ParticipantEntitiesInfo { gid: ".to_owned();
    r.append(&info.gid.to_hex());
    r.append(", node_entities_info_seq: ");
    r.append(&braced_of(&entries));
    r.append(" }");
    r
}

fn kind_name(kind: InterfaceKind) -> (r: &'static str)
    ensures
        r@ == kind_text(kind),
{
    match kind {
        InterfaceKind::MsgPub => "MsgPub",
        InterfaceKind::MsgSub => "MsgSub",
        InterfaceKind::ServiceSrv => "ServiceSrv",
        InterfaceKind::ServiceCli => "ServiceCli",
        InterfaceKind::ActionSrv => "ActionSrv",
        InterfaceKind::ActionCli => "ActionCli",
    }
}

fn part_name(part: Part) -> (r: &'static str)
    ensures
        r@ == part_text(part),
{
    match part {
        Part::Message => "Message",
        Part::Request => "Request",
        Part::Reply => "Reply",
        Part::SendGoalRequest => "SendGoalRequest",
        Part::SendGoalReply => "SendGoalReply",
        Part::CancelGoalRequest => "CancelGoalRequest",
        Part::CancelGoalReply => "CancelGoalReply",
        Part::GetResultRequest => "GetResultRequest",
        Part::GetResultReply => "GetResultReply",
        Part::Status => "Status",
        Part::Feedback => "Feedback",
    }
}

fn flag_name(flag: bool) -> (r: &'static str)
    ensures
        r@ == flag_text(flag),
{
    if flag {
        "true"
    } else {
        "false"
    }
}

fn describe_endpoint(e: &Endpoint) -> (r: String)
    ensures
        r@ == endpoint_text(e@),
{
    let mut r: String = "Endpoint { kind: ".to_owned();
    r.append(kind_name(e.kind));
    r.append(", part: ");
    r.append(part_name(e.part));
    r.append(", name: ");
    r.append(&quote(&e.name));
    r.append(", dds_type: ");
    r.append(&quote(&e.dds_type));
    r.append(", writer: ");
    r.append(flag_name(e.writer));
    r.append(", gid: ");
    r.append(&e.gid.to_hex());
    r.append(" }");
    r
}

pub(crate) fn describe_node(node: &NodeInfo) -> (r: String)
    ensures
        r@ == node_text(node@),
{
    let endpoints = node.endpoints();
    let mut texts: Vec<String> = Vec::new();
    for i in 0..endpoints.len()
        invariant
            views(endpoints@) == node@.endpoints,
            texts@.len() == i,
            forall|j: int|
                0 <= j < i ==> (#[trigger] texts@[j])@ == endpoint_text(node@.endpoints[j]),
    {
        assert(node@.endpoints[i as int] == endpoints@[i as int]@);
        texts.push(describe_endpoint(&endpoints[i]));
    }
    assert(node@.endpoints.len() == endpoints@.len());
    assert(texts_of(texts@) =~= endpoint_texts(node@.endpoints));
    let mut r: String = "NodeInfo { participant: ".to_owned();
    r.append(&node.participant().to_hex());
    r.append(", namespace: ");
    r.append(&quote(node.namespace()));
    r.append(", name: ");
    r.append(&quote(node.name()));
    r.append(", endpoints: ");
    r.append(&list_of(&texts));
    r.append(", undiscovered_reader: ");
    r.append(&list_of(&gid_texts_of(node.undiscovered(false))));
    r.append(", undiscovered_writer: ");
    r.append(&list_of(&gid_texts_of(node.undiscovered(true))));
    r.append(" }");
    r
}

// ---------------------------------------------------------------------------
// What the description names
// ---------------------------------------------------------------------------

proof fn lemma_part_left(a: Seq<char>, b: Seq<char>, part: Seq<char>)
    requires
        has_part(a, part),
    ensures
        has_part(a + b, part),
{
    let i = choose|i: int| occurs_at(a, part, i);
    assert((a + b).subrange(i, i + part.len()) =~= a.subrange(i, i + part.len()));
    assert(occurs_at(a + b, part, i));
}

proof fn lemma_part_right(a: Seq<char>, b: Seq<char>, part: Seq<char>)
    requires
        has_part(b, part),
    ensures
        has_part(a + b, part),
{
    let i = choose|i: int| occurs_at(b, part, i);
    let j = a.len() + i;
    assert((a + b).subrange(j, j + part.len()) =~= b.subrange(i, i + part.len()));
    assert(occurs_at(a + b, part, j));
}

proof fn lemma_whole_part(text: Seq<char>)
    ensures
        has_part(text, text),
{
    assert(text.subrange(0, text.len() as int) =~= text);
    assert(occurs_at(text, text, 0));
}

proof fn lemma_part_of_part(whole: Seq<char>, middle: Seq<char>, part: Seq<char>)
    requires
        has_part(whole, middle),
        has_part(middle, part),
    ensures
        has_part(whole, part),
{
    let i = choose|i: int| occurs_at(whole, middle, i);
    let j = choose|j: int| occurs_at(middle, part, j);
    let a = whole.subrange(i + j, i + j + part.len());
    let b = middle.subrange(j, j + part.len());
    assert(a =~= b) by {
        assert forall|k: int| 0 <= k < part.len() implies #[trigger] a[k] == b[k] by {
            assert(whole.subrange(i, i + middle.len())[j + k] == middle[j + k]);
        }
    }
    assert(occurs_at(whole, part, i + j));
}

proof fn lemma_listed_has(texts: Seq<Seq<char>>, n: nat, i: int)
    requires
        0 <= i < n <= texts.len(),
    ensures
        has_part(listed(texts, n), texts[i]),
    decreases n,
{
    lemma_whole_part(texts[i]);
    if n > 1 {
        let before = listed(texts, (n - 1) as nat);
        if i == n - 1 {
            lemma_part_right(before + ", "@, texts[i], texts[i]);
        } else {
            lemma_listed_has(texts, (n - 1) as nat, i);
            lemma_part_left(before, ", "@, texts[i]);
            lemma_part_left(before + ", "@, texts[n - 1], texts[i]);
        }
    }
}

/// A list or a map names each of its items.
pub proof fn law_list_names_its_items(texts: Seq<Seq<char>>, i: int)
    requires
        0 <= i < texts.len(),
    ensures
        has_part(list_text(texts), texts[i]),
        has_part(braced_text(texts), texts[i]),
{
    let inner = listed(texts, texts.len());
    lemma_listed_has(texts, texts.len(), i);
    lemma_part_right("["@, inner, texts[i]);
    lemma_part_left("["@ + inner, "]"@, texts[i]);
    lemma_part_right("{"@, inner, texts[i]);
    lemma_part_left("{"@ + inner, "}"@, texts[i]);
}

/// The description has its parts, each behind its heading.
pub proof fn law_description_has_its_parts(v: EntitiesView)
    ensures
        has_part(
            v.description(),
            "participants: "@ + list_text(
                Seq::new(v.participants.len(), |i: int| v.participants[i].key.hex()),
            ),
        ),
        has_part(
            v.description(),
            "\nwriters: "@ + list_text(
                Seq::new(v.writers.len(), |i: int| v.writers[i].key.hex()),
            ),
        ),
        has_part(
            v.description(),
            "\nreaders: "@ + list_text(
                Seq::new(v.readers.len(), |i: int| v.readers[i].key.hex()),
            ),
        ),
        has_part(
            v.description(),
            "\nros_participant_info: "@ + braced_text(declared_entries(v.declared)),
        ),
        has_part(v.description(), "\nnodes_info: "@ + braced_text(nodes_entries(v.nodes))),
        has_part(
            v.description(),
            "\nadmin_space: "@ + list_text(
                v.admin.map_values(|entry: AdminView| key_expr_text(entry.key)),
            ),
        ),
{
    let a = "participants: "@ + list_text(
        Seq::new(v.participants.len(), |i: int| v.participants[i].key.hex()),
    );
    let b = "\nwriters: "@ + list_text(
        Seq::new(v.writers.len(), |i: int| v.writers[i].key.hex()),
    );
    let c = "\nreaders: "@ + list_text(
        Seq::new(v.readers.len(), |i: int| v.readers[i].key.hex()),
    );
    let d = "\nros_participant_info: "@ + braced_text(declared_entries(v.declared));
    let e = "\nnodes_info: "@ + braced_text(nodes_entries(v.nodes));
    let f = "\nadmin_space: "@ + list_text(
        v.admin.map_values(|entry: AdminView| key_expr_text(entry.key)),
    );
    let g = "\n"@;
    lemma_whole_part(a);
    let (p2, h2, l2) = (
        a,
        "\nwriters: "@,
        list_text(Seq::new(v.writers.len(), |i: int| v.writers[i].key.hex())),
    );
    lemma_behind(p2, h2, l2);
    let (p3, h3, l3) = (
        p2 + h2 + l2,
        "\nreaders: "@,
        list_text(Seq::new(v.readers.len(), |i: int| v.readers[i].key.hex())),
    );
    lemma_behind(p3, h3, l3);
    let (p4, h4, l4) = (
        p3 + h3 + l3,
        "\nros_participant_info: "@,
        braced_text(declared_entries(v.declared)),
    );
    lemma_behind(p4, h4, l4);
    let (p5, h5, l5) = (p4 + h4 + l4, "\nnodes_info: "@, braced_text(nodes_entries(v.nodes)));
    lemma_behind(p5, h5, l5);
    let (p6, h6, l6) = (
        p5 + h5 + l5,
        "\nadmin_space: "@,
        list_text(v.admin.map_values(|entry: AdminView| key_expr_text(entry.key))),
    );
    lemma_behind(p6, h6, l6);
    let p7 = p6 + h6 + l6;
    assert(v.description() == p7 + g);
    lemma_part_left(p7, g, a);
    lemma_part_left(p7, g, b);
    lemma_part_left(p7, g, c);
    lemma_part_left(p7, g, d);
    lemma_part_left(p7, g, e);
    lemma_part_left(p7, g, f);
}

/// What is put behind a text is part of the whole, and so is all that was.
proof fn lemma_behind(p: Seq<char>, h: Seq<char>, l: Seq<char>)
    ensures
        has_part(p + h + l, h + l),
        forall|x: Seq<char>| has_part(p, x) ==> #[trigger] has_part(p + h + l, x),
{
    assert(p + h + l =~= p + (h + l));
    lemma_whole_part(h + l);
    lemma_part_right(p, h + l, h + l);
    assert forall|x: Seq<char>| has_part(p, x) implies #[trigger] has_part(p + h + l, x) by {
        lemma_part_left(p, h + l, x);
    }
}

/// The description names everything that is known: each participant, Writer and
/// Reader by its identifier, each declaration and each participant with nodes by its
/// identifier, and each entry of the admin space by its key.
pub proof fn law_description_names_all(v: EntitiesView, i: int)
    ensures
        0 <= i < v.participants.len() ==> has_part(v.description(), v.participants[i].key.hex()),
        0 <= i < v.writers.len() ==> has_part(v.description(), v.writers[i].key.hex()),
        0 <= i < v.readers.len() ==> has_part(v.description(), v.readers[i].key.hex()),
        0 <= i < v.declared.len() ==> has_part(
            v.description(),
            v.declared[i].gid.hex() + ": "@ + participant_decl_text(v.declared[i]),
        ),
        0 <= i < v.nodes.len() ==> has_part(
            v.description(),
            v.nodes[i].gid.hex() + ": "@ + braced_text(slot_entries(v.nodes[i].slots)),
        ),
        0 <= i < v.admin.len() ==> has_part(v.description(), "ke`"@ + v.admin[i].key + "`"@),
{
    law_description_has_its_parts(v);
    let all = v.description();
    if 0 <= i < v.participants.len() {
        let texts = Seq::new(v.participants.len(), |i: int| v.participants[i].key.hex());
        law_list_names_its_items(texts, i);
        lemma_part_right("participants: "@, list_text(texts), texts[i]);
        lemma_part_of_part(all, "participants: "@ + list_text(texts), texts[i]);
    }
    if 0 <= i < v.writers.len() {
        let texts = Seq::new(v.writers.len(), |i: int| v.writers[i].key.hex());
        law_list_names_its_items(texts, i);
        lemma_part_right("\nwriters: "@, list_text(texts), texts[i]);
        lemma_part_of_part(all, "\nwriters: "@ + list_text(texts), texts[i]);
    }
    if 0 <= i < v.readers.len() {
        let texts = Seq::new(v.readers.len(), |i: int| v.readers[i].key.hex());
        law_list_names_its_items(texts, i);
        lemma_part_right("\nreaders: "@, list_text(texts), texts[i]);
        lemma_part_of_part(all, "\nreaders: "@ + list_text(texts), texts[i]);
    }
    if 0 <= i < v.declared.len() {
        let texts = declared_entries(v.declared);
        law_list_names_its_items(texts, i);
        lemma_part_right("\nros_participant_info: "@, braced_text(texts), texts[i]);
        lemma_part_of_part(all, "\nros_participant_info: "@ + braced_text(texts), texts[i]);
    }
    if 0 <= i < v.nodes.len() {
        let texts = nodes_entries(v.nodes);
        law_list_names_its_items(texts, i);
        lemma_part_right("\nnodes_info: "@, braced_text(texts), texts[i]);
        lemma_part_of_part(all, "\nnodes_info: "@ + braced_text(texts), texts[i]);
    }
    if 0 <= i < v.admin.len() {
        let texts = v.admin.map_values(|entry: AdminView| key_expr_text(entry.key));
        law_list_names_its_items(texts, i);
        lemma_part_right("\nadmin_space: "@, list_text(texts), texts[i]);
        lemma_part_of_part(all, "\nadmin_space: "@ + list_text(texts), texts[i]);
    }
}

/// The identifiers are all named, in order, each by its own digits.
pub proof fn law_identifiers_are_named(gids: Seq<Gid>, i: int)
    requires
        0 <= i < gids.len(),
    ensures
        gid_texts(gids).len() == gids.len(),
        has_part(list_text(gid_texts(gids)), gids[i].hex()),
        has_part(braced_text(gid_texts(gids)), gids[i].hex()),
{
    law_list_names_its_items(gid_texts(gids), i);
}

/// The kinds of interfaces are told apart.
pub proof fn law_kinds_are_told_apart(a: InterfaceKind, b: InterfaceKind)
    requires
        kind_text(a) == kind_text(b),
    ensures
        a == b,
{
    reveal_strlit("MsgPub");
    reveal_strlit("MsgSub");
    reveal_strlit("ServiceSrv");
    reveal_strlit("ServiceCli");
    reveal_strlit("ActionSrv");
    reveal_strlit("ActionCli");
    assert("MsgPub"@[0] == 'M' && "MsgPub"@[3] == 'P');
    assert("MsgSub"@[0] == 'M' && "MsgSub"@[3] == 'S');
    assert("ServiceSrv"@[0] == 'S' && "ServiceSrv"@[9] == 'v');
    assert("ServiceCli"@[0] == 'S' && "ServiceCli"@[9] == 'i');
    assert("ActionSrv"@[0] == 'A' && "ActionSrv"@[8] == 'v');
    assert("ActionCli"@[0] == 'A' && "ActionCli"@[8] == 'i');
}

/// A node is described by its participant, its namespace and its name, by its endpoints,
/// and by the Readers and the Writers that it waits for, each under its own heading.
pub proof fn law_node_is_described(node: NodeView)
    ensures
        has_part(node_text(node), "NodeInfo { participant: "@ + node.participant.hex()),
        has_part(node_text(node), ", namespace: "@ + quoted(node.namespace)),
        has_part(node_text(node), ", name: "@ + quoted(node.name)),
        has_part(
            node_text(node),
            ", endpoints: "@ + list_text(endpoint_texts(node.endpoints)),
        ),
        has_part(
            node_text(node),
            ", undiscovered_reader: "@ + list_text(gid_texts(node.undiscovered_readers)),
        ),
        has_part(
            node_text(node),
            ", undiscovered_writer: "@ + list_text(gid_texts(node.undiscovered_writers)),
        ),
        forall|i: int|
            0 <= i < node.endpoints.len() ==> has_part(
                node_text(node),
                endpoint_text(#[trigger] node.endpoints[i]),
            ),
{
    let p1 = "NodeInfo { participant: "@ + node.participant.hex();
    lemma_whole_part(p1);
    let (h2, l2) = (", namespace: "@, quoted(node.namespace));
    lemma_behind(p1, h2, l2);
    let p2 = p1 + h2 + l2;
    let (h3, l3) = (", name: "@, quoted(node.name));
    lemma_behind(p2, h3, l3);
    let p3 = p2 + h3 + l3;
    let (h4, l4) = (", endpoints: "@, list_text(endpoint_texts(node.endpoints)));
    lemma_behind(p3, h4, l4);
    let p4 = p3 + h4 + l4;
    let (h5, l5) = (
        ", undiscovered_reader: "@,
        list_text(gid_texts(node.undiscovered_readers)),
    );
    lemma_behind(p4, h5, l5);
    let p5 = p4 + h5 + l5;
    let (h6, l6) = (
        ", undiscovered_writer: "@,
        list_text(gid_texts(node.undiscovered_writers)),
    );
    lemma_behind(p5, h6, l6);
    let p6 = p5 + h6 + l6;
    assert(node_text(node) == p6 + " }"@);
    lemma_part_left(p6, " }"@, p1);
    lemma_part_left(p6, " }"@, h2 + l2);
    lemma_part_left(p6, " }"@, h3 + l3);
    lemma_part_left(p6, " }"@, h4 + l4);
    lemma_part_left(p6, " }"@, h5 + l5);
    lemma_part_left(p6, " }"@, h6 + l6);
    assert forall|i: int| 0 <= i < node.endpoints.len() implies has_part(
        node_text(node),
        endpoint_text(#[trigger] node.endpoints[i]),
    ) by {
        let texts = endpoint_texts(node.endpoints);
        law_list_names_its_items(texts, i);
        lemma_part_right(h4, l4, texts[i]);
        lemma_part_of_part(node_text(node), h4 + l4, texts[i]);
    }
}

/// An endpoint is described by its interface, its type, its side and its identifier.
pub proof fn law_endpoint_is_described(e: EndpointView)
    ensures
        has_part(endpoint_text(e), "Endpoint { kind: "@ + kind_text(e.kind)),
        has_part(endpoint_text(e), ", part: "@ + part_text(e.part)),
        has_part(endpoint_text(e), ", name: "@ + quoted(e.name)),
        has_part(endpoint_text(e), ", dds_type: "@ + quoted(e.dds_type)),
        e.writer ==> has_part(endpoint_text(e), ", writer: "@ + "true"@),
        !e.writer ==> has_part(endpoint_text(e), ", writer: "@ + "false"@),
        has_part(endpoint_text(e), ", gid: "@ + e.gid.hex()),
{
    let p1 = "Endpoint { kind: "@ + kind_text(e.kind);
    lemma_whole_part(p1);
    let (h2, l2) = (", part: "@, part_text(e.part));
    lemma_behind(p1, h2, l2);
    let p2 = p1 + h2 + l2;
    let (h3, l3) = (", name: "@, quoted(e.name));
    lemma_behind(p2, h3, l3);
    let p3 = p2 + h3 + l3;
    let (h4, l4) = (", dds_type: "@, quoted(e.dds_type));
    lemma_behind(p3, h4, l4);
    let p4 = p3 + h4 + l4;
    let (h5, l5) = (", writer: "@, flag_text(e.writer));
    lemma_behind(p4, h5, l5);
    let p5 = p4 + h5 + l5;
    let (h6, l6) = (", gid: "@, e.gid.hex());
    lemma_behind(p5, h6, l6);
    let p6 = p5 + h6 + l6;
    assert(endpoint_text(e) == p6 + " }"@);
    lemma_part_left(p6, " }"@, p1);
    lemma_part_left(p6, " }"@, h2 + l2);
    lemma_part_left(p6, " }"@, h3 + l3);
    lemma_part_left(p6, " }"@, h4 + l4);
    lemma_part_left(p6, " }"@, h5 + l5);
    lemma_part_left(p6, " }"@, h6 + l6);
}

/// What a node declares is described by its namespace and its name, and by the Readers
/// and the Writers that it declares, each under its own heading.
pub proof fn law_declaration_is_described(decl: NodeDeclView)
    ensures
        has_part(
            node_decl_text(decl),
            "NodeEntitiesInfo { node_namespace: "@ + quoted(decl.namespace),
        ),
        has_part(node_decl_text(decl), ", node_name: "@ + quoted(decl.name)),
        has_part(
            node_decl_text(decl),
            ", reader_gid_seq: "@ + braced_text(gid_texts(decl.readers)),
        ),
        has_part(
            node_decl_text(decl),
            ", writer_gid_seq: "@ + braced_text(gid_texts(decl.writers)),
        ),
{
    let p1 = "NodeEntitiesInfo { node_namespace: "@ + quoted(decl.namespace);
    lemma_whole_part(p1);
    let (h2, l2) = (", node_name: "@, quoted(decl.name));
    lemma_behind(p1, h2, l2);
    let p2 = p1 + h2 + l2;
    let (h3, l3) = (", reader_gid_seq: "@, braced_text(gid_texts(decl.readers)));
    lemma_behind(p2, h3, l3);
    let p3 = p2 + h3 + l3;
    let (h4, l4) = (", writer_gid_seq: "@, braced_text(gid_texts(decl.writers)));
    lemma_behind(p3, h4, l4);
    let p4 = p3 + h4 + l4;
    assert(node_decl_text(decl) == p4 + " }"@);
    lemma_part_left(p4, " }"@, p1);
    lemma_part_left(p4, " }"@, h2 + l2);
    lemma_part_left(p4, " }"@, h3 + l3);
    lemma_part_left(p4, " }"@, h4 + l4);
}

/// The description has every node of every participant, and every node of every
/// declaration.
pub proof fn law_description_has_all_nodes(v: EntitiesView, i: int, j: int)
    ensures
        0 <= i < v.nodes.len() && 0 <= j < v.nodes[i].slots.len() ==> has_part(
            v.description(),
            quoted(v.nodes[i].slots[j].name) + ": "@ + node_text(v.nodes[i].slots[j].node),
        ),
        0 <= i < v.declared.len() && 0 <= j < v.declared[i].nodes.len() ==> has_part(
            v.description(),
            node_decl_text(v.declared[i].nodes[j]),
        ),
{
    law_description_names_all(v, i);
    let all = v.description();
    if 0 <= i < v.nodes.len() && 0 <= j < v.nodes[i].slots.len() {
        let head = v.nodes[i].gid.hex() + ": "@;
        let texts = slot_entries(v.nodes[i].slots);
        law_list_names_its_items(texts, j);
        lemma_part_right(head, braced_text(texts), texts[j]);
        lemma_part_of_part(all, head + braced_text(texts), texts[j]);
    }
    if 0 <= i < v.declared.len() && 0 <= j < v.declared[i].nodes.len() {
        let info = v.declared[i];
        let text = node_decl_text(info.nodes[j]);
        let texts = node_decl_entries(info.nodes);
        let key = quoted(info.nodes[j].key()) + ": "@;
        lemma_whole_part(text);
        lemma_part_right(key, text, text);
        assert(texts[j] == key + text);
        law_list_names_its_items(texts, j);
        lemma_part_of_part(braced_text(texts), texts[j], text);
        let front = "ParticipantEntitiesInfo { gid: "@ + info.gid.hex()
            + ", node_entities_info_seq: "@;
        lemma_part_right(front, braced_text(texts), text);
        lemma_part_left(front + braced_text(texts), " }"@, text);
        let head = info.gid.hex() + ": "@;
        lemma_part_right(head, participant_decl_text(info), text);
        lemma_part_of_part(all, head + participant_decl_text(info), text);
    }
}

} // verus!
