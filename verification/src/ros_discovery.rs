//! What a participant declares about its nodes in `ros_discovery_info`.
use crate::gid::Gid;
use crate::naming::{full_name, full_name_of};
use crate::table::{find, found, store, stored, unique, views, HasKey, Keyed};
use crate::text::same_text;
use vstd::prelude::*;

verus! {

/// Whether `gid` is one of `gids`.
pub fn has_gid(gids: &Vec<Gid>, gid: &Gid) -> (r: bool)
    ensures
        r == gids@.contains(*gid),
{
    for i in 0..gids.len()
        invariant
            forall|j: int| 0 <= j < i ==> gids@[j] != *gid,
    {
        if gids[i] == *gid {
            return true;
        }
    }
    false
}

/// Identifiers without repetition, in the order in which they were added.
#[derive(Debug)]
pub struct GidSet {
    gids: Vec<Gid>,
}

impl View for GidSet {
    type V = Seq<Gid>;

    closed spec fn view(&self) -> Seq<Gid> {
        self.gids@
    }
}

impl GidSet {
    pub fn new() -> (r: GidSet)
        ensures
            r@ == Seq::<Gid>::empty(),
    {
        GidSet { gids: Vec::new() }
    }

    /// Adds `gid`, and tells whether it is new.
    pub fn insert(&mut self, gid: Gid) -> (r: bool)
        ensures
            r == !old(self)@.contains(gid),
            final(self)@ == (if r {
                old(self)@.push(gid)
            } else {
                old(self)@
            }),
            old(self)@.no_duplicates() ==> final(self)@.no_duplicates(),
    {
        if has_gid(&self.gids, &gid) {
            false
        } else {
            self.gids.push(gid);
            true
        }
    }

    pub fn contains(&self, gid: &Gid) -> (r: bool)
        ensures
            r == self@.contains(*gid),
    {
        has_gid(&self.gids, gid)
    }

    pub fn len(&self) -> (r: usize)
        ensures
            r == self@.len(),
    {
        self.gids.len()
    }

    pub fn get(&self, i: usize) -> (r: Gid)
        requires
            i < self@.len(),
        ensures
            r == self@[i as int],
    {
        self.gids[i]
    }
}

/// The Readers and Writers that one node declares.
#[derive(Debug)]
pub struct NodeEntitiesInfo {
    pub node_namespace: String,
    pub node_name: String,
    pub reader_gid_seq: GidSet,
    pub writer_gid_seq: GidSet,
}

/// The specification value of a [`NodeEntitiesInfo`].
pub struct NodeDeclView {
    pub namespace: Seq<char>,
    pub name: Seq<char>,
    pub readers: Seq<Gid>,
    pub writers: Seq<Gid>,
}

impl View for NodeEntitiesInfo {
    type V = NodeDeclView;

    open spec fn view(&self) -> NodeDeclView {
        NodeDeclView {
            namespace: self.node_namespace@,
            name: self.node_name@,
            readers: self.reader_gid_seq@,
            writers: self.writer_gid_seq@,
        }
    }
}

impl HasKey for NodeDeclView {
    type K = Seq<char>;

    open spec fn key(&self) -> Seq<char> {
        full_name(self.namespace, self.name)
    }
}

impl Keyed for NodeEntitiesInfo {
    type Query = String;

    fn is_at(&self, query: &String) -> (r: bool) {
        same_text(&self.full_name(), query)
    }

    fn same_key(&self, other: &Self) -> (r: bool) {
        same_text(&self.full_name(), &other.full_name())
    }
}

impl NodeEntitiesInfo {
    /// A node that declares nothing yet.
    pub fn new(node_namespace: String, node_name: String) -> (r: NodeEntitiesInfo)
        ensures
            r@ == (NodeDeclView {
                namespace: node_namespace@,
                name: node_name@,
                readers: Seq::empty(),
                writers: Seq::empty(),
            }),
    {
        NodeEntitiesInfo {
            node_namespace,
            node_name,
            reader_gid_seq: GidSet::new(),
            writer_gid_seq: GidSet::new(),
        }
    }

    /// The name of the node with its namespace in front.
    pub fn full_name(&self) -> (r: String)
        ensures
            r@ == self@.key(),
    {
        full_name_of(&self.node_namespace, &self.node_name)
    }
}

/// The nodes of a participant by full name.
#[derive(Debug)]
pub struct NodeEntities {
    items: Vec<NodeEntitiesInfo>,
}

impl View for NodeEntities {
    type V = Seq<NodeDeclView>;

    closed spec fn view(&self) -> Seq<NodeDeclView> {
        views(self.items@)
    }
}

impl NodeEntities {
    #[verifier::type_invariant]
    spec fn names_differ(self) -> bool {
        unique(views(self.items@))
    }

    pub fn new() -> (r: NodeEntities)
        ensures
            r@ == Seq::<NodeDeclView>::empty(),
    {
        let items: Vec<NodeEntitiesInfo> = Vec::new();
        assert(views(items@) =~= Seq::empty());
        NodeEntities { items }
    }

    /// Files a node under its full name.
    pub fn insert(&mut self, name: String, info: NodeEntitiesInfo)
        requires
            name@ == info@.key(),
        ensures
            final(self)@ == stored(old(self)@, info@),
    {
        let mut items: Vec<NodeEntitiesInfo> = Vec::new();
        proof {
            use_type_invariant(&*self);
            assert(views(items@) =~= Seq::empty());
        }
        std::mem::swap(&mut items, &mut self.items);
        store(&mut items, info);
        self.items = items;
    }

    pub fn contains_key(&self, name: &String) -> (r: bool)
        ensures
            r == found(self@, name@),
    {
        proof {
            use_type_invariant(self);
        }
        find(&self.items, name).is_some()
    }

    pub fn len(&self) -> (r: usize)
        ensures
            r == self@.len(),
    {
        self.items.len()
    }

    pub fn get(&self, i: usize) -> (r: &NodeEntitiesInfo)
        requires
            i < self@.len(),
        ensures
            r@ == self@[i as int],
    {
        &self.items[i]
    }
}

/// What a participant declares.
#[derive(Debug)]
pub struct ParticipantEntitiesInfo {
    pub gid: Gid,
    pub node_entities_info_seq: NodeEntities,
}

/// The specification value of a [`ParticipantEntitiesInfo`].
pub struct ParticipantDeclView {
    pub gid: Gid,
    pub nodes: Seq<NodeDeclView>,
}

impl View for ParticipantEntitiesInfo {
    type V = ParticipantDeclView;

    open spec fn view(&self) -> ParticipantDeclView {
        ParticipantDeclView { gid: self.gid, nodes: self.node_entities_info_seq@ }
    }
}

impl HasKey for ParticipantDeclView {
    type K = Gid;

    open spec fn key(&self) -> Gid {
        self.gid
    }
}

impl Keyed for ParticipantEntitiesInfo {
    type Query = Gid;

    fn is_at(&self, query: &Gid) -> (r: bool) {
        self.gid == *query
    }

    fn same_key(&self, other: &Self) -> (r: bool) {
        self.gid == other.gid
    }
}

impl ParticipantEntitiesInfo {
    /// A participant that declares no node yet.
    pub fn new(gid: Gid) -> (r: ParticipantEntitiesInfo)
        ensures
            r@ == (ParticipantDeclView { gid, nodes: Seq::empty() }),
    {
        ParticipantEntitiesInfo { gid, node_entities_info_seq: NodeEntities::new() }
    }
}

/// What a node declares is read as it is, and is filed under its full name.
pub proof fn law_declaration_is_read_as_it_is(node: NodeEntitiesInfo, info: ParticipantEntitiesInfo)
    ensures
        node@.namespace == node.node_namespace@,
        node@.name == node.node_name@,
        node@.readers == node.reader_gid_seq@,
        node@.writers == node.writer_gid_seq@,
        node@.key() == full_name(node.node_namespace@, node.node_name@),
        info@.gid == info.gid,
        info@.nodes == info.node_entities_info_seq@,
        info@.key() == info.gid,
{
}

} // verus!
