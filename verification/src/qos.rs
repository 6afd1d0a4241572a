//! The quality-of-service policies of DDS endpoints.
//!
//! Routing depends on durability, durability service, reliability and history.
//! The others are handed on as they were announced.
use crate::table::views;
use crate::text::texts_of;
use vstd::prelude::*;

verus! {

/// How long a Writer keeps its samples for late Readers.
#[derive(Clone, Copy, PartialEq, Eq, Structural, Debug)]
pub enum DurabilityKind {
    Volatile,
    TransientLocal,
    Transient,
    Persistent,
}

/// Whether samples are kept for late Readers.
#[derive(Clone, Copy, PartialEq, Eq, Structural, Debug)]
pub struct Durability {
    pub kind: DurabilityKind,
}

/// Whether lost samples are sent again.
#[derive(Clone, Copy, PartialEq, Eq, Structural, Debug)]
pub enum ReliabilityKind {
    BestEffort,
    Reliable,
}

/// Whether lost samples are sent again, and how long a Writer waits for that.
#[derive(Clone, Copy, PartialEq, Eq, Structural, Debug)]
pub struct Reliability {
    pub kind: ReliabilityKind,
    pub max_blocking_time: i64,
}

/// Whether the number of samples kept per instance is bounded.
#[derive(Clone, Copy, PartialEq, Eq, Structural, Debug)]
pub enum HistoryKind {
    KeepLast,
    KeepAll,
}

/// How many samples are kept per instance.
#[derive(Clone, Copy, PartialEq, Eq, Structural, Debug)]
pub struct History {
    pub kind: HistoryKind,
    pub depth: i32,
}

/// What is kept for late Readers, and for how long.
#[derive(Clone, Copy, PartialEq, Eq, Structural, Debug)]
pub struct DurabilityService {
    pub service_cleanup_delay: i64,
    pub history_kind: HistoryKind,
    pub history_depth: i32,
    pub max_samples: i32,
    pub max_instances: i32,
    pub max_samples_per_instance: i32,
}

/// The samples that changes are grouped by.
#[derive(Clone, Copy, PartialEq, Eq, Structural, Debug)]
pub enum PresentationAccessScopeKind {
    Instance,
    Topic,
    Group,
}

/// How changes of several samples are presented.
#[derive(Clone, Copy, PartialEq, Eq, Structural, Debug)]
pub struct Presentation {
    pub access_scope: PresentationAccessScopeKind,
    pub coherent_access: bool,
    pub ordered_access: bool,
}

/// How often a sample is due.
#[derive(Clone, Copy, PartialEq, Eq, Structural, Debug)]
pub struct Deadline {
    pub period: i64,
}

/// The delay that is acceptable.
#[derive(Clone, Copy, PartialEq, Eq, Structural, Debug)]
pub struct LatencyBudget {
    pub duration: i64,
}

/// Whether several Writers may update an instance.
#[derive(Clone, Copy, PartialEq, Eq, Structural, Debug)]
pub enum OwnershipKind {
    Shared,
    Exclusive,
}

/// Whether several Writers may update an instance.
#[derive(Clone, Copy, PartialEq, Eq, Structural, Debug)]
pub struct Ownership {
    pub kind: OwnershipKind,
}

/// The rank of a Writer among those of an instance.
#[derive(Clone, Copy, PartialEq, Eq, Structural, Debug)]
pub struct OwnershipStrength {
    pub value: i32,
}

/// Who says that a Writer is alive.
#[derive(Clone, Copy, PartialEq, Eq, Structural, Debug)]
pub enum LivelinessKind {
    Automatic,
    ManualByParticipant,
    ManualByTopic,
}

/// How a Writer shows that it is alive.
#[derive(Clone, Copy, PartialEq, Eq, Structural, Debug)]
pub struct Liveliness {
    pub kind: LivelinessKind,
    pub lease_duration: i64,
}

/// The least time between two samples of an instance.
#[derive(Clone, Copy, PartialEq, Eq, Structural, Debug)]
pub struct TimeBasedFilter {
    pub minimum_separation: i64,
}

/// The priority on the network.
#[derive(Clone, Copy, PartialEq, Eq, Structural, Debug)]
pub struct TransportPriority {
    pub value: i32,
}

/// How long a sample is valid.
#[derive(Clone, Copy, PartialEq, Eq, Structural, Debug)]
pub struct Lifespan {
    pub duration: i64,
}

/// The time stamp by which samples are ordered.
#[derive(Clone, Copy, PartialEq, Eq, Structural, Debug)]
pub enum DestinationOrderKind {
    ByReceptionTimestamp,
    BySourceTimestamp,
}

/// How samples are ordered.
#[derive(Clone, Copy, PartialEq, Eq, Structural, Debug)]
pub struct DestinationOrder {
    pub kind: DestinationOrderKind,
}

/// How many samples an endpoint holds.
#[derive(Clone, Copy, PartialEq, Eq, Structural, Debug)]
pub struct ResourceLimits {
    pub max_samples: i32,
    pub max_instances: i32,
    pub max_samples_per_instance: i32,
}

/// Whether an instance is disposed of when it is unregistered.
#[derive(Clone, Copy, PartialEq, Eq, Structural, Debug)]
pub struct WriterDataLifecycle {
    pub autodispose_unregistered_instances: bool,
}

/// When a Reader purges samples.
#[derive(Clone, Copy, PartialEq, Eq, Structural, Debug)]
pub struct ReaderDataLifecycle {
    pub autopurge_nowriter_samples_delay: i64,
    pub autopurge_disposed_samples_delay: i64,
}

/// Whether samples are sent in batches.
#[derive(Clone, Copy, PartialEq, Eq, Structural, Debug)]
pub struct WriterBatching {
    pub batch_updates: bool,
}

/// Whether types may differ.
#[derive(Clone, Copy, PartialEq, Eq, Structural, Debug)]
pub enum TypeConsistencyKind {
    DisallowTypeCoercion,
    AllowTypeCoercion,
}

/// How far the types of a Writer and a Reader may differ.
#[derive(Clone, Copy, PartialEq, Eq, Structural, Debug)]
pub struct TypeConsistency {
    pub kind: TypeConsistencyKind,
    pub ignore_sequence_bounds: bool,
    pub ignore_string_bounds: bool,
    pub ignore_member_names: bool,
    pub prevent_type_widening: bool,
    pub force_type_validation: bool,
}

/// The endpoints that are ignored for being near.
#[derive(Clone, Copy, PartialEq, Eq, Structural, Debug)]
pub enum IgnoreLocalKind {
    Nothing,
    Participant,
    Process,
}

/// Whether endpoints nearby are ignored.
#[derive(Clone, Copy, PartialEq, Eq, Structural, Debug)]
pub struct IgnoreLocal {
    pub kind: IgnoreLocalKind,
}

/// The name of an entity.
#[derive(PartialEq, Eq, Debug)]
pub struct EntityName {
    pub name: String,
}

/// A property with its value.
#[derive(PartialEq, Eq, Debug)]
pub struct Property {
    pub name: String,
    pub value: String,
}

/// The policies of an endpoint, each one missing where it is not announced.
#[derive(PartialEq, Eq, Debug)]
pub struct Qos {
    pub user_data: Option<Vec<u8>>,
    pub topic_data: Option<Vec<u8>>,
    pub group_data: Option<Vec<u8>>,
    pub durability: Option<Durability>,
    pub durability_service: Option<DurabilityService>,
    pub presentation: Option<Presentation>,
    pub deadline: Option<Deadline>,
    pub latency_budget: Option<LatencyBudget>,
    pub ownership: Option<Ownership>,
    pub ownership_strength: Option<OwnershipStrength>,
    pub liveliness: Option<Liveliness>,
    pub time_based_filter: Option<TimeBasedFilter>,
    pub partition: Option<Vec<String>>,
    pub reliability: Option<Reliability>,
    pub transport_priority: Option<TransportPriority>,
    pub lifespan: Option<Lifespan>,
    pub destination_order: Option<DestinationOrder>,
    pub history: Option<History>,
    pub resource_limits: Option<ResourceLimits>,
    pub writer_data_lifecycle: Option<WriterDataLifecycle>,
    pub reader_data_lifecycle: Option<ReaderDataLifecycle>,
    pub writer_batching: Option<WriterBatching>,
    pub type_consistency: Option<TypeConsistency>,
    pub entity_name: Option<EntityName>,
    pub properties: Option<Vec<Property>>,
    pub ignore_local: Option<IgnoreLocal>,
    pub data_representation: Option<Vec<i16>>,
}

/// The specification value of a [`Property`].
pub struct PropertyView {
    pub name: Seq<char>,
    pub value: Seq<char>,
}

impl View for Property {
    type V = PropertyView;

    open spec fn view(&self) -> PropertyView {
        PropertyView { name: self.name@, value: self.value@ }
    }
}

/// The specification value of a [`Qos`].
pub struct QosView {
    pub user_data: Option<Seq<u8>>,
    pub topic_data: Option<Seq<u8>>,
    pub group_data: Option<Seq<u8>>,
    pub durability: Option<Durability>,
    pub durability_service: Option<DurabilityService>,
    pub presentation: Option<Presentation>,
    pub deadline: Option<Deadline>,
    pub latency_budget: Option<LatencyBudget>,
    pub ownership: Option<Ownership>,
    pub ownership_strength: Option<OwnershipStrength>,
    pub liveliness: Option<Liveliness>,
    pub time_based_filter: Option<TimeBasedFilter>,
    pub partition: Option<Seq<Seq<char>>>,
    pub reliability: Option<Reliability>,
    pub transport_priority: Option<TransportPriority>,
    pub lifespan: Option<Lifespan>,
    pub destination_order: Option<DestinationOrder>,
    pub history: Option<History>,
    pub resource_limits: Option<ResourceLimits>,
    pub writer_data_lifecycle: Option<WriterDataLifecycle>,
    pub reader_data_lifecycle: Option<ReaderDataLifecycle>,
    pub writer_batching: Option<WriterBatching>,
    pub type_consistency: Option<TypeConsistency>,
    pub entity_name: Option<Seq<char>>,
    pub properties: Option<Seq<PropertyView>>,
    pub ignore_local: Option<IgnoreLocal>,
    pub data_representation: Option<Seq<i16>>,
}

/// Bytes that may be missing.
pub open spec fn bytes_in(bytes: Option<Vec<u8>>) -> Option<Seq<u8>> {
    match bytes {
        Some(bytes) => Some(bytes@),
        None => None,
    }
}

/// Identifiers that may be missing.
pub open spec fn ids_in(ids: Option<Vec<i16>>) -> Option<Seq<i16>> {
    match ids {
        Some(ids) => Some(ids@),
        None => None,
    }
}

/// Names that may be missing.
pub open spec fn names_in(names: Option<Vec<String>>) -> Option<Seq<Seq<char>>> {
    match names {
        Some(names) => Some(texts_of(names@)),
        None => None,
    }
}

/// A name that may be missing.
pub open spec fn entity_name_in(name: Option<EntityName>) -> Option<Seq<char>> {
    match name {
        Some(name) => Some(name.name@),
        None => None,
    }
}

/// Properties that may be missing.
pub open spec fn properties_in(properties: Option<Vec<Property>>) -> Option<Seq<PropertyView>> {
    match properties {
        Some(properties) => Some(views(properties@)),
        None => None,
    }
}

impl View for Qos {
    type V = QosView;

    open spec fn view(&self) -> QosView {
        QosView {
            user_data: bytes_in(self.user_data),
            topic_data: bytes_in(self.topic_data),
            group_data: bytes_in(self.group_data),
            durability: self.durability,
            durability_service: self.durability_service,
            presentation: self.presentation,
            deadline: self.deadline,
            latency_budget: self.latency_budget,
            ownership: self.ownership,
            ownership_strength: self.ownership_strength,
            liveliness: self.liveliness,
            time_based_filter: self.time_based_filter,
            partition: names_in(self.partition),
            reliability: self.reliability,
            transport_priority: self.transport_priority,
            lifespan: self.lifespan,
            destination_order: self.destination_order,
            history: self.history,
            resource_limits: self.resource_limits,
            writer_data_lifecycle: self.writer_data_lifecycle,
            reader_data_lifecycle: self.reader_data_lifecycle,
            writer_batching: self.writer_batching,
            type_consistency: self.type_consistency,
            entity_name: entity_name_in(self.entity_name),
            properties: properties_in(self.properties),
            ignore_local: self.ignore_local,
            data_representation: ids_in(self.data_representation),
        }
    }
}

/// No policy announced.
pub open spec fn no_policies() -> QosView {
    QosView {
        user_data: None,
        topic_data: None,
        group_data: None,
        durability: None,
        durability_service: None,
        presentation: None,
        deadline: None,
        latency_budget: None,
        ownership: None,
        ownership_strength: None,
        liveliness: None,
        time_based_filter: None,
        partition: None,
        reliability: None,
        transport_priority: None,
        lifespan: None,
        destination_order: None,
        history: None,
        resource_limits: None,
        writer_data_lifecycle: None,
        reader_data_lifecycle: None,
        writer_batching: None,
        type_consistency: None,
        entity_name: None,
        properties: None,
        ignore_local: None,
        data_representation: None,
    }
}

fn bytes_copy(bytes: &Option<Vec<u8>>) -> (r: Option<Vec<u8>>)
    ensures
        bytes_in(r) == bytes_in(*bytes),
{
    match bytes {
        Some(bytes) => {
            let mut r: Vec<u8> = Vec::new();
            for i in 0..bytes.len()
                invariant
                    r@ == bytes@.take(i as int),
            {
                r.push(bytes[i]);
                assert(bytes@.take(i + 1) =~= bytes@.take(i as int).push(bytes@[i as int]));
            }
            assert(bytes@.take(bytes@.len() as int) =~= bytes@);
            Some(r)
        },
        None => None,
    }
}

fn ids_copy(ids: &Option<Vec<i16>>) -> (r: Option<Vec<i16>>)
    ensures
        ids_in(r) == ids_in(*ids),
{
    match ids {
        Some(ids) => {
            let mut r: Vec<i16> = Vec::new();
            for i in 0..ids.len()
                invariant
                    r@ == ids@.take(i as int),
            {
                r.push(ids[i]);
                assert(ids@.take(i + 1) =~= ids@.take(i as int).push(ids@[i as int]));
            }
            assert(ids@.take(ids@.len() as int) =~= ids@);
            Some(r)
        },
        None => None,
    }
}

fn names_copy(names: &Option<Vec<String>>) -> (r: Option<Vec<String>>)
    ensures
        names_in(r) == names_in(*names),
{
    match names {
        Some(names) => {
            let mut r: Vec<String> = Vec::new();
            for i in 0..names.len()
                invariant
                    r@.len() == i,
                    forall|j: int| 0 <= j < i ==> (#[trigger] r@[j])@ == names@[j]@,
            {
                r.push(names[i].clone());
            }
            assert(texts_of(r@) =~= texts_of(names@));
            Some(r)
        },
        None => None,
    }
}

fn entity_name_copy(name: &Option<EntityName>) -> (r: Option<EntityName>)
    ensures
        entity_name_in(r) == entity_name_in(*name),
{
    match name {
        Some(name) => Some(EntityName { name: name.name.clone() }),
        None => None,
    }
}

fn properties_copy(properties: &Option<Vec<Property>>) -> (r: Option<Vec<Property>>)
    ensures
        properties_in(r) == properties_in(*properties),
{
    match properties {
        Some(properties) => {
            let mut r: Vec<Property> = Vec::new();
            for i in 0..properties.len()
                invariant
                    r@.len() == i,
                    forall|j: int| 0 <= j < i ==> (#[trigger] r@[j])@ == properties@[j]@,
            {
                let p = &properties[i];
                r.push(Property { name: p.name.clone(), value: p.value.clone() });
            }
            assert(views(r@) =~= views(properties@));
            Some(r)
        },
        None => None,
    }
}

impl Clone for Qos {
    fn clone(&self) -> (r: Self)
        ensures
            r@ == self@,
    {
        Qos {
            user_data: bytes_copy(&self.user_data),
            topic_data: bytes_copy(&self.topic_data),
            group_data: bytes_copy(&self.group_data),
            durability: self.durability,
            durability_service: self.durability_service,
            presentation: self.presentation,
            deadline: self.deadline,
            latency_budget: self.latency_budget,
            ownership: self.ownership,
            ownership_strength: self.ownership_strength,
            liveliness: self.liveliness,
            time_based_filter: self.time_based_filter,
            partition: names_copy(&self.partition),
            reliability: self.reliability,
            transport_priority: self.transport_priority,
            lifespan: self.lifespan,
            destination_order: self.destination_order,
            history: self.history,
            resource_limits: self.resource_limits,
            writer_data_lifecycle: self.writer_data_lifecycle,
            reader_data_lifecycle: self.reader_data_lifecycle,
            writer_batching: self.writer_batching,
            type_consistency: self.type_consistency,
            entity_name: entity_name_copy(&self.entity_name),
            properties: properties_copy(&self.properties),
            ignore_local: self.ignore_local,
            data_representation: ids_copy(&self.data_representation),
        }
    }
}

/// The value of a limit that is no limit.
pub const DDS_LENGTH_UNLIMITED: i32 = -1;

impl Default for Qos {
    /// No policy announced.
    fn default() -> (r: Qos)
        ensures
            r@ == no_policies(),
    {
        Qos {
            user_data: None,
            topic_data: None,
            group_data: None,
            durability: None,
            durability_service: None,
            presentation: None,
            deadline: None,
            latency_budget: None,
            ownership: None,
            ownership_strength: None,
            liveliness: None,
            time_based_filter: None,
            partition: None,
            reliability: None,
            transport_priority: None,
            lifespan: None,
            destination_order: None,
            history: None,
            resource_limits: None,
            writer_data_lifecycle: None,
            reader_data_lifecycle: None,
            writer_batching: None,
            type_consistency: None,
            entity_name: None,
            properties: None,
            ignore_local: None,
            data_representation: None,
        }
    }
}

impl Default for History {
    /// The last sample.
    fn default() -> (r: History)
        ensures
            r == last_sample(),
    {
        History { kind: HistoryKind::KeepLast, depth: 1 }
    }
}

impl Default for DurabilityService {
    /// The last sample of each instance, for any number of them.
    fn default() -> (r: DurabilityService)
        ensures
            r == unlimited_service(),
    {
        DurabilityService {
            service_cleanup_delay: 0,
            history_kind: HistoryKind::KeepLast,
            history_depth: 1,
            max_samples: DDS_LENGTH_UNLIMITED,
            max_instances: DDS_LENGTH_UNLIMITED,
            max_samples_per_instance: DDS_LENGTH_UNLIMITED,
        }
    }
}

/// The history where none is announced: the last sample.
pub open spec fn last_sample() -> History {
    History { kind: HistoryKind::KeepLast, depth: 1 }
}

/// The durability service where none is announced: one without a limit.
pub open spec fn unlimited_service() -> DurabilityService {
    DurabilityService {
        service_cleanup_delay: 0,
        history_kind: HistoryKind::KeepLast,
        history_depth: 1,
        max_samples: DDS_LENGTH_UNLIMITED,
        max_instances: DDS_LENGTH_UNLIMITED,
        max_samples_per_instance: DDS_LENGTH_UNLIMITED,
    }
}

impl QosView {
    /// Whether samples are kept for late Readers while their Writer lives.
    pub open spec fn transient_local(self) -> bool {
        self.durability matches Some(durability) && durability.kind
            == DurabilityKind::TransientLocal
    }

    /// Whether lost samples are sent again.
    pub open spec fn reliable(self) -> bool {
        self.reliability matches Some(reliability) && reliability.kind == ReliabilityKind::Reliable
    }

    /// The announced history, or the last sample.
    pub open spec fn history_or_default(self) -> History {
        match self.history {
            Some(history) => history,
            None => last_sample(),
        }
    }

    /// The announced durability service, or one without a limit.
    pub open spec fn durability_service_or_default(self) -> DurabilityService {
        match self.durability_service {
            Some(service) => service,
            None => unlimited_service(),
        }
    }
}

pub fn is_transient_local(qos: &Qos) -> (r: bool)
    ensures
        r == qos@.transient_local(),
{
    match qos.durability {
        Some(durability) => durability.kind == DurabilityKind::TransientLocal,
        None => false,
    }
}

pub fn is_reliable(qos: &Qos) -> (r: bool)
    ensures
        r == qos@.reliable(),
{
    match qos.reliability {
        Some(reliability) => reliability.kind == ReliabilityKind::Reliable,
        None => false,
    }
}

pub fn get_history_or_default(qos: &Qos) -> (r: History)
    ensures
        r == qos@.history_or_default(),
{
    match qos.history {
        Some(history) => history,
        None => History::default(),
    }
}

pub fn get_durability_service_or_default(qos: &Qos) -> (r: DurabilityService)
    ensures
        r == qos@.durability_service_or_default(),
{
    match qos.durability_service {
        Some(service) => service,
        None => DurabilityService::default(),
    }
}

/// Samples are kept for late Readers, or sent again, only where that very policy is
/// announced with that very kind. An announced history and an announced durability
/// service are taken as they are. Without them one sample is kept, and nothing limits
/// the number of samples and instances.
pub proof fn law_announced_policies_decide(qos: Qos)
    ensures
        qos@.transient_local() <==> exists|durability: Durability|
            qos.durability == Some(durability) && durability.kind
                == DurabilityKind::TransientLocal,
        qos@.reliable() <==> exists|reliability: Reliability|
            qos.reliability == Some(reliability) && reliability.kind == ReliabilityKind::Reliable,
        qos.history is Some ==> qos@.history_or_default() == qos.history->0,
        qos.history is None ==> qos@.history_or_default().kind == HistoryKind::KeepLast
            && qos@.history_or_default().depth == 1,
        qos.durability_service is Some ==> qos@.durability_service_or_default()
            == qos.durability_service->0,
        qos.durability_service is None ==> {
            let service = qos@.durability_service_or_default();
            &&& service.service_cleanup_delay == 0
            &&& service.history_kind == HistoryKind::KeepLast
            &&& service.history_depth == 1
            &&& service.max_samples == -1
            &&& service.max_instances == -1
            &&& service.max_samples_per_instance == -1
        },
{
}

/// Where nothing is announced, no kind of a policy is: samples are neither kept for late
/// Readers nor sent again, and a set of policies with any policy in it is another one.
pub proof fn law_nothing_is_announced_by_default(qos: Qos)
    requires
        qos@ == no_policies(),
    ensures
        !qos@.transient_local(),
        !qos@.reliable(),
        qos.durability is None,
        qos.durability_service is None,
        qos.reliability is None,
        qos.history is None,
        qos.deadline is None,
        qos.lifespan is None,
        qos.liveliness is None,
        qos.ownership is None,
        qos.resource_limits is None,
        qos.user_data is None,
        qos.topic_data is None,
        qos.group_data is None,
        qos.partition is None,
        qos.ignore_local is None,
        qos.writer_batching is None,
        qos.properties is None,
{
}

/// No policy is left out: two sets of policies that are read alike have the same
/// policies, each of them.
pub proof fn law_all_policies_are_read(a: Qos, b: Qos)
    requires
        a@ == b@,
    ensures
        bytes_alike(a.user_data, b.user_data),
        bytes_alike(a.topic_data, b.topic_data),
        bytes_alike(a.group_data, b.group_data),
        a.durability == b.durability,
        a.durability_service == b.durability_service,
        a.presentation == b.presentation,
        a.deadline == b.deadline,
        a.latency_budget == b.latency_budget,
        a.ownership == b.ownership,
        a.ownership_strength == b.ownership_strength,
        a.liveliness == b.liveliness,
        a.time_based_filter == b.time_based_filter,
        (a.partition matches Some(x) ==> (b.partition matches Some(y) && x@.len() == y@.len()
            && (forall|i: int| 0 <= i < x@.len() ==> (#[trigger] x@[i])@ == y@[i]@))),
        a.partition is None ==> b.partition is None,
        a.reliability == b.reliability,
        a.transport_priority == b.transport_priority,
        a.lifespan == b.lifespan,
        a.destination_order == b.destination_order,
        a.history == b.history,
        a.resource_limits == b.resource_limits,
        a.writer_data_lifecycle == b.writer_data_lifecycle,
        a.reader_data_lifecycle == b.reader_data_lifecycle,
        a.writer_batching == b.writer_batching,
        a.type_consistency == b.type_consistency,
        (a.entity_name matches Some(x) ==> (b.entity_name matches Some(y) && x.name@ == y.name@)),
        a.entity_name is None ==> b.entity_name is None,
        (a.properties matches Some(x) ==> (b.properties matches Some(y) && x@.len() == y@.len()
            && (forall|i: int|
            0 <= i < x@.len() ==> (#[trigger] x@[i]).name@ == y@[i].name@ && x@[i].value@
                == y@[i].value@))),
        a.properties is None ==> b.properties is None,
        a.ignore_local == b.ignore_local,
        (a.data_representation matches Some(x) ==> (b.data_representation matches Some(y) && x@ == y@)),
        a.data_representation is None ==> b.data_representation is None,
{
    if let Some(x) = a.partition {
        let y = b.partition->0;
        assert(texts_of(x@) == texts_of(y@));
        assert(texts_of(x@).len() == x@.len() && texts_of(y@).len() == y@.len());
        assert forall|i: int| 0 <= i < x@.len() implies (#[trigger] x@[i])@ == y@[i]@ by {
            assert(texts_of(x@)[i] == x@[i]@);
            assert(texts_of(y@)[i] == y@[i]@);
        }
    }
    if let Some(x) = a.properties {
        let y = b.properties->0;
        assert(views(x@) == views(y@));
        assert(views(x@).len() == x@.len() && views(y@).len() == y@.len());
        assert forall|i: int| 0 <= i < x@.len() implies (#[trigger] x@[i]).name@ == y@[i].name@
            && x@[i].value@ == y@[i].value@ by {
            assert(views(x@)[i] == x@[i]@);
            assert(views(y@)[i] == y@[i]@);
        }
    }
}

/// Whether both are missing, or hold the same bytes.
pub open spec fn bytes_alike(a: Option<Vec<u8>>, b: Option<Vec<u8>>) -> bool {
    match a {
        Some(x) => b matches Some(y) && x@ == y@,
        None => b is None,
    }
}

} // verus!
