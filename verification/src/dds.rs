//! The participants, Writers and Readers that DDS discovery reports.
use crate::admin_keys::{entity_key, entity_prefix_of, lemma_prefix_plain};
use crate::gid::Gid;
use crate::key_expr::{field_fits, format_key, plain};
use crate::qos::{Qos, QosView};
use crate::table::{HasKey, Keyed};
use vstd::prelude::*;

verus! {

/// The type information of a topic, by the handle under which DDS keeps it.
#[derive(Clone, Copy, PartialEq, Eq, Structural, Debug)]
pub struct TypeInfo {
    pub handle: u64,
}

/// A discovered participant.
#[derive(Debug)]
pub struct DdsParticipant {
    pub key: Gid,
    pub qos: Qos,
}

/// The specification value of a [`DdsParticipant`].
pub struct ParticipantView {
    pub key: Gid,
    pub qos: QosView,
}

impl View for DdsParticipant {
    type V = ParticipantView;

    open spec fn view(&self) -> ParticipantView {
        ParticipantView { key: self.key, qos: self.qos@ }
    }
}

impl HasKey for ParticipantView {
    type K = Gid;

    open spec fn key(&self) -> Gid {
        self.key
    }
}

impl Keyed for DdsParticipant {
    type Query = Gid;

    fn is_at(&self, query: &Gid) -> (r: bool) {
        self.key == *query
    }

    fn same_key(&self, other: &Self) -> (r: bool) {
        self.key == other.key
    }
}

/// A discovered Writer or Reader. Its topic name can stand in a key expression.
#[derive(Debug)]
pub struct DdsEntity {
    key: Gid,
    participant_key: Gid,
    topic_name: String,
    dds_type: String,
    type_info: Option<TypeInfo>,
    keyless: bool,
    qos: Qos,
}

/// The specification value of a [`DdsEntity`].
pub struct EntityView {
    pub key: Gid,
    pub participant_key: Gid,
    pub topic_name: Seq<char>,
    pub dds_type: Seq<char>,
    pub type_info: Option<TypeInfo>,
    pub keyless: bool,
    pub qos: QosView,
}

impl View for DdsEntity {
    type V = EntityView;

    closed spec fn view(&self) -> EntityView {
        EntityView {
            key: self.key,
            participant_key: self.participant_key,
            topic_name: self.topic_name@,
            dds_type: self.dds_type@,
            type_info: self.type_info,
            keyless: self.keyless,
            qos: self.qos@,
        }
    }
}

impl HasKey for EntityView {
    type K = Gid;

    open spec fn key(&self) -> Gid {
        self.key
    }
}

impl Keyed for DdsEntity {
    type Query = Gid;

    fn is_at(&self, query: &Gid) -> (r: bool) {
        self.key == *query
    }

    fn same_key(&self, other: &Self) -> (r: bool) {
        self.key == other.key
    }
}

impl Clone for DdsEntity {
    fn clone(&self) -> (r: Self)
        ensures
            r@ == self@,
    {
        proof {
            use_type_invariant(self);
        }
        DdsEntity {
            key: self.key,
            participant_key: self.participant_key,
            topic_name: self.topic_name.clone(),
            dds_type: self.dds_type.clone(),
            type_info: self.type_info,
            keyless: self.keyless,
            qos: self.qos.clone(),
        }
    }
}

impl DdsEntity {
    #[verifier::type_invariant]
    spec fn topic_fits(self) -> bool {
        field_fits(self.topic_name@)
    }

    /// An entity with these properties, unless its topic name cannot stand in
    /// a key expression. It can where it is empty or plain.
    pub fn new(
        key: Gid,
        participant_key: Gid,
        topic_name: String,
        dds_type: String,
        type_info: Option<TypeInfo>,
        keyless: bool,
        qos: Qos,
    ) -> (r: Option<DdsEntity>)
        ensures
            r is Some == field_fits(topic_name@),
            topic_name@.len() == 0 || plain(topic_name@) ==> r is Some,
            r matches Some(e) ==> e@ == (EntityView {
                key,
                participant_key,
                topic_name: topic_name@,
                dds_type: dds_type@,
                type_info,
                keyless,
                qos: qos@,
            }),
    {
        proof {
            reveal_strlit("dds");
        }
        match format_key("dds", &topic_name) {
            Some(_) => Some(
                DdsEntity {
                    key,
                    participant_key,
                    topic_name,
                    dds_type,
                    type_info,
                    keyless,
                    qos,
                },
            ),
            None => None,
        }
    }

    /// Where the entity stands in the admin space, as a Writer or as a Reader.
    pub fn admin_key(&self, writer: bool) -> (r: String)
        ensures
            r@ == entity_key(self@, writer),
    {
        let prefix = entity_prefix_of(&self.participant_key, &self.key, writer);
        proof {
            use_type_invariant(self);
            lemma_prefix_plain(self.participant_key, self.key, writer);
        }
        match format_key(&prefix, &self.topic_name) {
            Some(key) => key,
            None => prefix,
        }
    }

    pub fn key(&self) -> (r: Gid)
        ensures
            r == self@.key,
    {
        self.key
    }

    pub fn participant_key(&self) -> (r: Gid)
        ensures
            r == self@.participant_key,
    {
        self.participant_key
    }

    pub fn topic_name(&self) -> (r: &str)
        ensures
            r@ == self@.topic_name,
    {
        &self.topic_name
    }

    pub fn dds_type(&self) -> (r: &str)
        ensures
            r@ == self@.dds_type,
    {
        &self.dds_type
    }

    pub fn type_info(&self) -> (r: Option<TypeInfo>)
        ensures
            r == self@.type_info,
    {
        self.type_info
    }

    pub fn keyless(&self) -> (r: bool)
        ensures
            r == self@.keyless,
    {
        self.keyless
    }

    pub fn qos(&self) -> (r: &Qos)
        ensures
            r@ == self@.qos,
    {
        &self.qos
    }
}

/// A participant is read as it is, and is known by its identifier.
pub proof fn law_participant_is_read_as_it_is(p: DdsParticipant)
    ensures
        p@.key == p.key,
        p@.qos == p.qos@,
        p@.key() == p.key,
{
}

} // verus!
