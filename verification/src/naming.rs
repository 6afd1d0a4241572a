//! How ROS 2 names its interfaces on DDS topics.
//!
//! A message goes over one topic, `rt/<name>`. A service has a request topic,
//! `rq/<name>Request`, and a reply topic, `rr/<name>Reply`. An action is made of
//! three services and two messages below `<name>/_action`.
use crate::text::{ends_with, starts_with};
use vstd::prelude::*;

verus! {

/// What a node offers or uses under a name.
#[derive(Clone, Copy, PartialEq, Eq, Structural, Debug)]
pub enum InterfaceKind {
    MsgPub,
    MsgSub,
    ServiceSrv,
    ServiceCli,
    ActionSrv,
    ActionCli,
}

/// One of the DDS endpoints that an interface is made of.
#[derive(Clone, Copy, PartialEq, Eq, Structural, Debug)]
pub enum Part {
    Message,
    Request,
    Reply,
    SendGoalRequest,
    SendGoalReply,
    CancelGoalRequest,
    CancelGoalReply,
    GetResultRequest,
    GetResultReply,
    Status,
    Feedback,
}

/// The place of a DDS endpoint in an interface, as its topic tells it.
pub struct Role {
    pub kind: InterfaceKind,
    pub part: Part,
    pub name: String,
}

/// The specification value of a [`Role`].
pub struct RoleView {
    pub kind: InterfaceKind,
    pub part: Part,
    pub name: Seq<char>,
}

impl View for Role {
    type V = RoleView;

    open spec fn view(&self) -> RoleView {
        RoleView { kind: self.kind, part: self.part, name: self.name@ }
    }
}

/// What stands between the two characters of the topic's prefix and `suffix`.
pub open spec fn named(topic: Seq<char>, suffix: Seq<char>) -> Option<Seq<char>> {
    if suffix.is_suffix_of(topic) && suffix.len() + 2 <= topic.len() {
        Some(topic.subrange(2, topic.len() - suffix.len()))
    } else {
        None
    }
}

/// The side of an action that has a Writer (or a Reader) on its status and
/// feedback topics, or on its reply topics.
pub open spec fn action_kind(server: bool) -> InterfaceKind {
    if server {
        InterfaceKind::ActionSrv
    } else {
        InterfaceKind::ActionCli
    }
}

pub open spec fn service_kind(server: bool) -> InterfaceKind {
    if server {
        InterfaceKind::ServiceSrv
    } else {
        InterfaceKind::ServiceCli
    }
}

pub open spec fn message_kind(writer: bool) -> InterfaceKind {
    if writer {
        InterfaceKind::MsgPub
    } else {
        InterfaceKind::MsgSub
    }
}

/// The role of an endpoint on a topic that starts with `rt/`.
pub open spec fn message_role(topic: Seq<char>, writer: bool) -> RoleView {
    if let Some(name) = named(topic, "/_action/status"@) {
        RoleView { kind: action_kind(writer), part: Part::Status, name }
    } else if let Some(name) = named(topic, "/_action/feedback"@) {
        RoleView { kind: action_kind(writer), part: Part::Feedback, name }
    } else {
        RoleView { kind: message_kind(writer), part: Part::Message, name: topic.skip(2) }
    }
}

/// The role of an endpoint on a topic that starts with `rq/`. A server reads
/// requests.
pub open spec fn request_role(topic: Seq<char>, writer: bool) -> Option<RoleView> {
    if let Some(name) = named(topic, "/_action/send_goalRequest"@) {
        Some(RoleView { kind: action_kind(!writer), part: Part::SendGoalRequest, name })
    } else if let Some(name) = named(topic, "/_action/cancel_goalRequest"@) {
        Some(RoleView { kind: action_kind(!writer), part: Part::CancelGoalRequest, name })
    } else if let Some(name) = named(topic, "/_action/get_resultRequest"@) {
        Some(RoleView { kind: action_kind(!writer), part: Part::GetResultRequest, name })
    } else if let Some(name) = named(topic, "Request"@) {
        Some(RoleView { kind: service_kind(!writer), part: Part::Request, name })
    } else {
        None
    }
}

/// The role of an endpoint on a topic that starts with `rr/`. A server writes
/// replies.
pub open spec fn reply_role(topic: Seq<char>, writer: bool) -> Option<RoleView> {
    if let Some(name) = named(topic, "/_action/send_goalReply"@) {
        Some(RoleView { kind: action_kind(writer), part: Part::SendGoalReply, name })
    } else if let Some(name) = named(topic, "/_action/cancel_goalReply"@) {
        Some(RoleView { kind: action_kind(writer), part: Part::CancelGoalReply, name })
    } else if let Some(name) = named(topic, "/_action/get_resultReply"@) {
        Some(RoleView { kind: action_kind(writer), part: Part::GetResultReply, name })
    } else if let Some(name) = named(topic, "Reply"@) {
        Some(RoleView { kind: service_kind(writer), part: Part::Reply, name })
    } else {
        None
    }
}

/// The role of a Writer (or a Reader) on `topic`, if ROS 2 gives it one.
pub open spec fn role_of(topic: Seq<char>, writer: bool) -> Option<RoleView> {
    if "rt/"@.is_prefix_of(topic) {
        Some(message_role(topic, writer))
    } else if "rq/"@.is_prefix_of(topic) {
        request_role(topic, writer)
    } else if "rr/"@.is_prefix_of(topic) {
        reply_role(topic, writer)
    } else {
        None
    }
}

fn name_before(topic: &str, suffix: &str) -> (r: Option<String>)
    ensures
        crate::key_expr::text_in(r) == named(topic@, suffix@),
{
    let n: usize = topic.unicode_len();
    let m: usize = suffix.unicode_len();
    if ends_with(topic, suffix) && m <= n && n - m >= 2 {
        Some(topic.substring_char(2, n - m).to_owned())
    } else {
        None
    }
}

fn action_of(server: bool, part: Part, name: String) -> (r: Role)
    ensures
        r@ == (RoleView { kind: action_kind(server), part, name: name@ }),
{
    let kind = if server {
        InterfaceKind::ActionSrv
    } else {
        InterfaceKind::ActionCli
    };
    Role { kind, part, name }
}

fn service_of(server: bool, part: Part, name: String) -> (r: Role)
    ensures
        r@ == (RoleView { kind: service_kind(server), part, name: name@ }),
{
    let kind = if server {
        InterfaceKind::ServiceSrv
    } else {
        InterfaceKind::ServiceCli
    };
    Role { kind, part, name }
}

fn message_role_of(topic: &str, writer: bool) -> (r: Role)
    requires
        topic@.len() >= 2,
    ensures
        r@ == message_role(topic@, writer),
{
    if let Some(name) = name_before(topic, "/_action/status") {
        return action_of(writer, Part::Status, name);
    }
    if let Some(name) = name_before(topic, "/_action/feedback") {
        return action_of(writer, Part::Feedback, name);
    }
    let kind = if writer {
        InterfaceKind::MsgPub
    } else {
        InterfaceKind::MsgSub
    };
    let name = topic.substring_char(2, topic.unicode_len()).to_owned();
    assert(topic@.subrange(2, topic@.len() as int) =~= topic@.skip(2));
    Role { kind, part: Part::Message, name }
}

fn request_role_of(topic: &str, writer: bool) -> (r: Option<Role>)
    ensures
        role_in(r) == request_role(topic@, writer),
{
    if let Some(name) = name_before(topic, "/_action/send_goalRequest") {
        Some(action_of(!writer, Part::SendGoalRequest, name))
    } else if let Some(name) = name_before(topic, "/_action/cancel_goalRequest") {
        Some(action_of(!writer, Part::CancelGoalRequest, name))
    } else if let Some(name) = name_before(topic, "/_action/get_resultRequest") {
        Some(action_of(!writer, Part::GetResultRequest, name))
    } else if let Some(name) = name_before(topic, "Request") {
        Some(service_of(!writer, Part::Request, name))
    } else {
        None
    }
}

fn reply_role_of(topic: &str, writer: bool) -> (r: Option<Role>)
    ensures
        role_in(r) == reply_role(topic@, writer),
{
    if let Some(name) = name_before(topic, "/_action/send_goalReply") {
        Some(action_of(writer, Part::SendGoalReply, name))
    } else if let Some(name) = name_before(topic, "/_action/cancel_goalReply") {
        Some(action_of(writer, Part::CancelGoalReply, name))
    } else if let Some(name) = name_before(topic, "/_action/get_resultReply") {
        Some(action_of(writer, Part::GetResultReply, name))
    } else if let Some(name) = name_before(topic, "Reply") {
        Some(service_of(writer, Part::Reply, name))
    } else {
        None
    }
}

/// The specification value of a role that may be missing.
pub open spec fn role_in(r: Option<Role>) -> Option<RoleView> {
    match r {
        Some(r) => Some(r@),
        None => None,
    }
}

/// The role of a Writer (or a Reader) on `topic`, if ROS 2 gives it one.
pub fn classify(topic: &str, writer: bool) -> (r: Option<Role>)
    ensures
        role_in(r) == role_of(topic@, writer),
{
    if starts_with(topic, "rt/") {
        proof {
            reveal_strlit("rt/");
        }
        Some(message_role_of(topic, writer))
    } else if starts_with(topic, "rq/") {
        request_role_of(topic, writer)
    } else if starts_with(topic, "rr/") {
        reply_role_of(topic, writer)
    } else {
        None
    }
}

/// The name of a node with its namespace in front.
pub open spec fn full_name(namespace: Seq<char>, name: Seq<char>) -> Seq<char> {
    if namespace == "/"@ {
        "/"@ + name
    } else {
        namespace + "/"@ + name
    }
}

/// The name of a node with its namespace in front.
pub fn full_name_of(namespace: &str, name: &str) -> (r: String)
    ensures
        r@ == full_name(namespace@, name@),
{
    if crate::text::same_text(namespace, "/") {
        crate::text::join2("/", name)
    } else {
        crate::text::join3(namespace, "/", name)
    }
}

/// Whether the message topic belongs to an action, which looks after its own
/// announcement.
pub fn is_message_for_action(ros2_name: &str) -> (r: bool)
    ensures
        r == message_for_action(ros2_name@),
{
    ends_with(ros2_name, "/_action/status") || ends_with(ros2_name, "/_action/feedback")
}

/// Whether the name is that of a status or a feedback topic of an action.
pub open spec fn message_for_action(ros2_name: Seq<char>) -> bool {
    "/_action/status"@.is_suffix_of(ros2_name) || "/_action/feedback"@.is_suffix_of(ros2_name)
}

/// The text with `::` in place of each slash.
pub open spec fn with_colons(s: Seq<char>) -> Seq<char>
    decreases s.len(),
{
    if s.len() == 0 {
        Seq::empty()
    } else if s.last() == '/' {
        with_colons(s.drop_last()) + seq![':', ':']
    } else {
        with_colons(s.drop_last()).push(s.last())
    }
}

/// The place of the last colon, or -1.
pub open spec fn last_colon(s: Seq<char>) -> int
    decreases s.len(),
{
    if s.len() == 0 {
        -1
    } else if s.last() == ':' {
        s.len() - 1
    } else {
        last_colon(s.drop_last())
    }
}

/// The DDS type of a ROS 2 message type: `std_msgs/msg/String` becomes
/// `std_msgs::msg::dds_::String_`.
pub open spec fn dds_message_type(ros2_type: Seq<char>) -> Seq<char> {
    let s = with_colons(ros2_type);
    let i = last_colon(s);
    if i < 0 {
        s + "_"@
    } else {
        s.take(i + 1) + "dds_::"@ + s.skip(i + 1) + "_"@
    }
}

pub(crate) proof fn lemma_last_colon(s: Seq<char>)
    ensures
        -1 <= last_colon(s) < s.len(),
        last_colon(s) >= 0 ==> s[last_colon(s)] == ':',
        forall|i: int| last_colon(s) < i < s.len() ==> s[i] != ':',
    decreases s.len(),
{
    if s.len() > 0 && s.last() != ':' {
        lemma_last_colon(s.drop_last());
        assert forall|i: int| last_colon(s) < i < s.len() implies s[i] != ':' by {
            if i < s.len() - 1 {
                assert(s.drop_last()[i] == s[i]);
            }
        }
    }
}

/// The DDS type of a ROS 2 message type.
pub fn ros2_message_type_to_dds_type(ros2_type: &str) -> (r: String)
    ensures
        r@ == dds_message_type(ros2_type@),
{
    let given = crate::text::chars_of(ros2_type);
    let mut chars: Vec<char> = Vec::new();
    for i in 0..given.len()
        invariant
            chars@ == with_colons(given@.take(i as int)),
    {
        proof {
            assert(given@.take(i + 1).drop_last() =~= given@.take(i as int));
            assert(given@.take(i + 1).last() == given@[i as int]);
        }
        if given[i] == '/' {
            let ghost before = chars@;
            chars.push(':');
            chars.push(':');
            assert(chars@ =~= before + seq![':', ':']);
        } else {
            chars.push(given[i]);
        }
    }
    assert(given@.take(given@.len() as int) =~= given@);
    let whole = crate::text::string_of(&chars);
    proof {
        lemma_last_colon(whole@);
    }
    let n: usize = chars.len();
    let mut at: usize = n;
    while at > 0 && chars[at - 1] != ':'
        invariant
            at <= n,
            n == chars@.len(),
            chars@ == whole@,
            forall|i: int| at <= i < n ==> chars@[i] != ':',
        decreases at,
    {
        at = at - 1;
    }
    if at == 0 {
        crate::text::join2(&whole, "_")
    } else {
        let head = whole.as_str().substring_char(0, at);
        let tail = whole.as_str().substring_char(at, n);
        proof {
            assert(whole@[at - 1] == ':');
            assert(last_colon(whole@) == at - 1);
            assert(whole@.subrange(0, at as int) =~= whole@.take(at as int));
            assert(whole@.subrange(at as int, n as int) =~= whole@.skip(at as int));
        }
        let front = crate::text::join3(head, "dds_::", tail);
        crate::text::join2(&front, "_")
    }
}

} // verus!
