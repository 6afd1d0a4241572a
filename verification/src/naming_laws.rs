//! What the topics and the types of ROS 2 interfaces come to, whatever they are
//! named.
use crate::naming::{
    dds_message_type, full_name, last_colon, lemma_last_colon, message_for_action, named, role_of,
    with_colons, InterfaceKind, Part, RoleView,
};
use crate::node_info::{complete, needed, part_there, serves, EndpointView};
use crate::text::{has_part, occurs_at};
use vstd::prelude::*;

verus! {

// ---------------------------------------------------------------------------
// Topics
// ---------------------------------------------------------------------------

/// A text ends as its suffix does.
proof fn lemma_suffix_char(text: Seq<char>, suffix: Seq<char>, k: int)
    requires
        suffix.is_suffix_of(text),
        1 <= k <= suffix.len(),
    ensures
        text[text.len() - k] == suffix[suffix.len() - k],
{
    let tail = text.subrange(text.len() - suffix.len(), text.len() as int);
    assert(tail[suffix.len() - k] == suffix[suffix.len() - k]);
}

/// What stands before the suffix is the name.
proof fn lemma_named(head: Seq<char>, name: Seq<char>, suffix: Seq<char>)
    requires
        head.len() == 2,
    ensures
        named(head + name + suffix, suffix) == Some(name),
{
    let topic = head + name + suffix;
    assert(topic.subrange(topic.len() - suffix.len(), topic.len() as int) =~= suffix);
    assert(topic.subrange(2, topic.len() - suffix.len()) =~= name);
}

/// A topic whose name does not end so has no such name.
proof fn lemma_not_named(head: Seq<char>, name: Seq<char>, inner: Seq<char>, tail: Seq<char>)
    requires
        head.len() == 2,
        !inner.is_suffix_of(name),
    ensures
        named(head + name + tail, inner + tail) is None,
{
    let topic = head + name + tail;
    let suffix = inner + tail;
    if suffix.is_suffix_of(topic) && suffix.len() + 2 <= topic.len() {
        assert(inner.len() <= name.len());
        let end = topic.subrange(topic.len() - suffix.len(), topic.len() as int);
        assert(end == suffix);
        assert(inner =~= name.subrange(name.len() - inner.len(), name.len() as int)) by {
            assert forall|i: int| 0 <= i < inner.len() implies inner[i] == name[name.len()
                - inner.len() + i] by {
                assert(end[i] == suffix[i]);
                assert(end[i] == topic[topic.len() - suffix.len() + i]);
            }
        }
    }
}

proof fn lemma_heads(rest: Seq<char>)
    requires
        rest.len() > 0,
        rest[0] == '/',
    ensures
        "rt/"@.is_prefix_of("rt"@ + rest),
        "rq/"@.is_prefix_of("rq"@ + rest),
        "rr/"@.is_prefix_of("rr"@ + rest),
        !"rt/"@.is_prefix_of("rq"@ + rest),
        !"rt/"@.is_prefix_of("rr"@ + rest),
        !"rq/"@.is_prefix_of("rr"@ + rest),
        "rt"@.len() == 2,
        "rq"@.len() == 2,
        "rr"@.len() == 2,
{
    reveal_strlit("rt/");
    reveal_strlit("rq/");
    reveal_strlit("rr/");
    reveal_strlit("rt");
    reveal_strlit("rq");
    reveal_strlit("rr");
    assert(("rt"@ + rest).subrange(0, 3) =~= "rt/"@);
    assert(("rq"@ + rest).subrange(0, 3) =~= "rq/"@);
    assert(("rr"@ + rest).subrange(0, 3) =~= "rr/"@);
    assert("rt/"@[1] != ("rq"@ + rest).subrange(0, 3)[1]);
    assert("rt/"@[1] != ("rr"@ + rest).subrange(0, 3)[1]);
    assert("rq/"@[1] != ("rr"@ + rest).subrange(0, 3)[1]);
}

/// Who writes on the topic of a message publishes it, and who reads from it
/// subscribes to it.
pub proof fn law_message_topic(name: Seq<char>, writer: bool)
    requires
        name.len() > 0,
        name[0] == '/',
        !"/_action/status"@.is_suffix_of(name),
        !"/_action/feedback"@.is_suffix_of(name),
    ensures
        role_of("rt"@ + name, writer) == Some(
            RoleView {
                kind: if writer {
                    InterfaceKind::MsgPub
                } else {
                    InterfaceKind::MsgSub
                },
                part: Part::Message,
                name,
            },
        ),
{
    lemma_heads(name);
    let topic = "rt"@ + name;
    let none = Seq::<char>::empty();
    assert(topic =~= "rt"@ + name + none);
    assert("/_action/status"@ + none =~= "/_action/status"@);
    assert("/_action/feedback"@ + none =~= "/_action/feedback"@);
    lemma_not_named("rt"@, name, "/_action/status"@, none);
    lemma_not_named("rt"@, name, "/_action/feedback"@, none);
    assert(topic.skip(2) =~= name);
}

/// Who reads requests and writes replies is the server of a service, and who writes
/// requests and reads replies is its client.
pub proof fn law_service_topics(name: Seq<char>, writer: bool)
    requires
        name.len() > 0,
        name[0] == '/',
        !"/_action/send_goal"@.is_suffix_of(name),
        !"/_action/cancel_goal"@.is_suffix_of(name),
        !"/_action/get_result"@.is_suffix_of(name),
    ensures
        role_of("rq"@ + name + "Request"@, writer) == Some(
            RoleView {
                kind: if writer {
                    InterfaceKind::ServiceCli
                } else {
                    InterfaceKind::ServiceSrv
                },
                part: Part::Request,
                name,
            },
        ),
        role_of("rr"@ + name + "Reply"@, writer) == Some(
            RoleView {
                kind: if writer {
                    InterfaceKind::ServiceSrv
                } else {
                    InterfaceKind::ServiceCli
                },
                part: Part::Reply,
                name,
            },
        ),
{
    let request = "rq"@ + name + "Request"@;
    let reply = "rr"@ + name + "Reply"@;
    lemma_heads(name + "Request"@);
    lemma_heads(name + "Reply"@);
    assert(request =~= "rq"@ + (name + "Request"@));
    assert(reply =~= "rr"@ + (name + "Reply"@));
    lemma_action_suffixes();
    lemma_not_named("rq"@, name, "/_action/send_goal"@, "Request"@);
    lemma_not_named("rq"@, name, "/_action/cancel_goal"@, "Request"@);
    lemma_not_named("rq"@, name, "/_action/get_result"@, "Request"@);
    lemma_not_named("rr"@, name, "/_action/send_goal"@, "Reply"@);
    lemma_not_named("rr"@, name, "/_action/cancel_goal"@, "Reply"@);
    lemma_not_named("rr"@, name, "/_action/get_result"@, "Reply"@);
    lemma_named("rq"@, name, "Request"@);
    lemma_named("rr"@, name, "Reply"@);
}

proof fn lemma_action_suffixes()
    ensures
        "/_action/send_goalRequest"@ == "/_action/send_goal"@ + "Request"@,
        "/_action/cancel_goalRequest"@ == "/_action/cancel_goal"@ + "Request"@,
        "/_action/get_resultRequest"@ == "/_action/get_result"@ + "Request"@,
        "/_action/send_goalReply"@ == "/_action/send_goal"@ + "Reply"@,
        "/_action/cancel_goalReply"@ == "/_action/cancel_goal"@ + "Reply"@,
        "/_action/get_resultReply"@ == "/_action/get_result"@ + "Reply"@,
{
    reveal_strlit("/_action/send_goalRequest");
    reveal_strlit("/_action/cancel_goalRequest");
    reveal_strlit("/_action/get_resultRequest");
    reveal_strlit("/_action/send_goalReply");
    reveal_strlit("/_action/cancel_goalReply");
    reveal_strlit("/_action/get_resultReply");
    reveal_strlit("/_action/send_goal");
    reveal_strlit("/_action/cancel_goal");
    reveal_strlit("/_action/get_result");
    reveal_strlit("Request");
    reveal_strlit("Reply");
    assert("/_action/send_goalRequest"@ =~= "/_action/send_goal"@ + "Request"@);
    assert("/_action/cancel_goalRequest"@ =~= "/_action/cancel_goal"@ + "Request"@);
    assert("/_action/get_resultRequest"@ =~= "/_action/get_result"@ + "Request"@);
    assert("/_action/send_goalReply"@ =~= "/_action/send_goal"@ + "Reply"@);
    assert("/_action/cancel_goalReply"@ =~= "/_action/cancel_goal"@ + "Reply"@);
    assert("/_action/get_resultReply"@ =~= "/_action/get_result"@ + "Reply"@);
}

/// The side of an action: a server writes replies, status and feedback, and reads
/// requests.
pub open spec fn action_side(server: bool) -> InterfaceKind {
    if server {
        InterfaceKind::ActionSrv
    } else {
        InterfaceKind::ActionCli
    }
}

/// The status and the feedback of an action come from its server.
pub proof fn law_action_message_topics(name: Seq<char>, writer: bool)
    requires
        name.len() > 0,
        name[0] == '/',
    ensures
        role_of("rt"@ + name + "/_action/status"@, writer) == Some(
            RoleView { kind: action_side(writer), part: Part::Status, name },
        ),
        role_of("rt"@ + name + "/_action/feedback"@, writer) == Some(
            RoleView { kind: action_side(writer), part: Part::Feedback, name },
        ),
{
    let status = "rt"@ + name + "/_action/status"@;
    let feedback = "rt"@ + name + "/_action/feedback"@;
    lemma_heads(name + "/_action/status"@);
    lemma_heads(name + "/_action/feedback"@);
    assert(status =~= "rt"@ + (name + "/_action/status"@));
    assert(feedback =~= "rt"@ + (name + "/_action/feedback"@));
    lemma_named("rt"@, name, "/_action/status"@);
    lemma_named("rt"@, name, "/_action/feedback"@);
    reveal_strlit("/_action/status");
    reveal_strlit("/_action/feedback");
    if "/_action/status"@.is_suffix_of(feedback) {
        lemma_suffix_char(feedback, "/_action/status"@, 1);
        assert(feedback[feedback.len() - 1] == 'k');
    }
}

/// The goals, their cancellation and their results are asked for by the client of an
/// action.
pub proof fn law_action_request_topics(name: Seq<char>, writer: bool)
    requires
        name.len() > 0,
        name[0] == '/',
    ensures
        role_of("rq"@ + name + "/_action/send_goalRequest"@, writer) == Some(
            RoleView { kind: action_side(!writer), part: Part::SendGoalRequest, name },
        ),
        role_of("rq"@ + name + "/_action/cancel_goalRequest"@, writer) == Some(
            RoleView { kind: action_side(!writer), part: Part::CancelGoalRequest, name },
        ),
        role_of("rq"@ + name + "/_action/get_resultRequest"@, writer) == Some(
            RoleView { kind: action_side(!writer), part: Part::GetResultRequest, name },
        ),
{
    let a = "/_action/send_goalRequest"@;
    let b = "/_action/cancel_goalRequest"@;
    let c = "/_action/get_resultRequest"@;
    reveal_strlit("/_action/send_goalRequest");
    reveal_strlit("/_action/cancel_goalRequest");
    reveal_strlit("/_action/get_resultRequest");
    let x = "rq"@ + name + a;
    let y = "rq"@ + name + b;
    let z = "rq"@ + name + c;
    lemma_heads(name + a);
    lemma_heads(name + b);
    lemma_heads(name + c);
    assert(x =~= "rq"@ + (name + a));
    assert(y =~= "rq"@ + (name + b));
    assert(z =~= "rq"@ + (name + c));
    lemma_named("rq"@, name, a);
    lemma_named("rq"@, name, b);
    lemma_named("rq"@, name, c);
    if a.is_suffix_of(y) {
        lemma_suffix_char(y, a, 13);
        assert(y[y.len() - 13] == b[b.len() - 13]);
    }
    if a.is_suffix_of(z) {
        lemma_suffix_char(z, a, 8);
        assert(z[z.len() - 8] == c[c.len() - 8]);
    }
    if b.is_suffix_of(z) {
        lemma_suffix_char(z, b, 8);
        assert(z[z.len() - 8] == c[c.len() - 8]);
    }
}

/// They are answered by its server.
pub proof fn law_action_reply_topics(name: Seq<char>, writer: bool)
    requires
        name.len() > 0,
        name[0] == '/',
    ensures
        role_of("rr"@ + name + "/_action/send_goalReply"@, writer) == Some(
            RoleView { kind: action_side(writer), part: Part::SendGoalReply, name },
        ),
        role_of("rr"@ + name + "/_action/cancel_goalReply"@, writer) == Some(
            RoleView { kind: action_side(writer), part: Part::CancelGoalReply, name },
        ),
        role_of("rr"@ + name + "/_action/get_resultReply"@, writer) == Some(
            RoleView { kind: action_side(writer), part: Part::GetResultReply, name },
        ),
{
    let a = "/_action/send_goalReply"@;
    let b = "/_action/cancel_goalReply"@;
    let c = "/_action/get_resultReply"@;
    reveal_strlit("/_action/send_goalReply");
    reveal_strlit("/_action/cancel_goalReply");
    reveal_strlit("/_action/get_resultReply");
    let x = "rr"@ + name + a;
    let y = "rr"@ + name + b;
    let z = "rr"@ + name + c;
    lemma_heads(name + a);
    lemma_heads(name + b);
    lemma_heads(name + c);
    assert(x =~= "rr"@ + (name + a));
    assert(y =~= "rr"@ + (name + b));
    assert(z =~= "rr"@ + (name + c));
    lemma_named("rr"@, name, a);
    lemma_named("rr"@, name, b);
    lemma_named("rr"@, name, c);
    if a.is_suffix_of(y) {
        lemma_suffix_char(y, a, 11);
        assert(y[y.len() - 11] == b[b.len() - 11]);
    }
    if a.is_suffix_of(z) {
        lemma_suffix_char(z, a, 6);
        assert(z[z.len() - 6] == c[c.len() - 6]);
    }
    if b.is_suffix_of(z) {
        lemma_suffix_char(z, b, 6);
        assert(z[z.len() - 6] == c[c.len() - 6]);
    }
}

/// Other topics are not those of ROS 2: a topic is a message, a request or a reply by
/// its first three characters, and the latter two end so.
pub proof fn law_other_topics(topic: Seq<char>, writer: bool)
    ensures
        !"rt/"@.is_prefix_of(topic) && !"rq/"@.is_prefix_of(topic) && !"rr/"@.is_prefix_of(topic)
            ==> role_of(topic, writer) is None,
        "rq/"@.is_prefix_of(topic) && !"Request"@.is_suffix_of(topic) ==> role_of(topic, writer)
            is None,
        "rr/"@.is_prefix_of(topic) && !"Reply"@.is_suffix_of(topic) ==> role_of(topic, writer)
            is None,
        "rt/"@.is_prefix_of(topic) ==> role_of(topic, writer) is Some,
{
    lemma_action_suffixes();
    lemma_three(topic);
    if !"Request"@.is_suffix_of(topic) {
        lemma_no_longer_suffix(topic, "/_action/send_goal"@, "Request"@);
        lemma_no_longer_suffix(topic, "/_action/cancel_goal"@, "Request"@);
        lemma_no_longer_suffix(topic, "/_action/get_result"@, "Request"@);
    }
    if !"Reply"@.is_suffix_of(topic) {
        lemma_no_longer_suffix(topic, "/_action/send_goal"@, "Reply"@);
        lemma_no_longer_suffix(topic, "/_action/cancel_goal"@, "Reply"@);
        lemma_no_longer_suffix(topic, "/_action/get_result"@, "Reply"@);
    }
}

proof fn lemma_no_longer_suffix(topic: Seq<char>, inner: Seq<char>, tail: Seq<char>)
    requires
        !tail.is_suffix_of(topic),
    ensures
        !(inner + tail).is_suffix_of(topic),
{
    let suffix = inner + tail;
    if suffix.is_suffix_of(topic) {
        let end = topic.subrange(topic.len() - suffix.len(), topic.len() as int);
        assert(end == suffix);
        assert(tail =~= topic.subrange(topic.len() - tail.len(), topic.len() as int)) by {
            assert forall|i: int| 0 <= i < tail.len() implies tail[i] == topic[topic.len()
                - tail.len() + i] by {
                assert(suffix[inner.len() + i] == tail[i]);
                assert(end[inner.len() + i] == topic[topic.len() - suffix.len() + inner.len() + i]);
            }
        }
    }
}

proof fn lemma_three(topic: Seq<char>)
    ensures
        "rq/"@.is_prefix_of(topic) ==> !"rt/"@.is_prefix_of(topic),
        "rr/"@.is_prefix_of(topic) ==> !"rt/"@.is_prefix_of(topic) && !"rq/"@.is_prefix_of(topic),
{
    reveal_strlit("rt/");
    reveal_strlit("rq/");
    reveal_strlit("rr/");
    let head = topic.subrange(0, 3);
    if "rq/"@.is_prefix_of(topic) {
        assert(head == "rq/"@);
        assert(head[1] == 'q');
    }
    if "rr/"@.is_prefix_of(topic) {
        assert(head == "rr/"@);
        assert(head[1] == 'r');
    }
    if "rt/"@.is_prefix_of(topic) {
        assert(head == "rt/"@);
        assert(head[1] == 't');
    }
}

/// Whether the one is what the other talks to.
pub open spec fn opposite(a: InterfaceKind, b: InterfaceKind) -> bool {
    match a {
        InterfaceKind::MsgPub => b == InterfaceKind::MsgSub,
        InterfaceKind::MsgSub => b == InterfaceKind::MsgPub,
        InterfaceKind::ServiceSrv => b == InterfaceKind::ServiceCli,
        InterfaceKind::ServiceCli => b == InterfaceKind::ServiceSrv,
        InterfaceKind::ActionSrv => b == InterfaceKind::ActionCli,
        InterfaceKind::ActionCli => b == InterfaceKind::ActionSrv,
    }
}

/// The Writer and the Reader of a topic are on opposite sides of the same part of
/// the same interface.
pub proof fn law_topic_has_two_sides(topic: Seq<char>)
    ensures
        match role_of(topic, true) {
            Some(w) => role_of(topic, false) matches Some(r) && w.part == r.part && w.name == r.name
                && opposite(w.kind, r.kind),
            None => role_of(topic, false) is None,
        },
{
}

/// Whether the interface has the part.
pub open spec fn has(
    endpoints: Seq<EndpointView>,
    kind: InterfaceKind,
    name: Seq<char>,
    part: Part,
) -> bool {
    exists|i: int|
        0 <= i < endpoints.len() && (#[trigger] endpoints[i]).kind == kind && endpoints[i].name
            == name && endpoints[i].part == part
}

/// A message needs one endpoint, a service two, and an action eight.
pub proof fn law_interface_needs_its_parts(endpoints: Seq<EndpointView>, name: Seq<char>)
    ensures
        forall|kind: InterfaceKind|
            kind == InterfaceKind::MsgPub || kind == InterfaceKind::MsgSub ==> #[trigger] complete(
                endpoints,
                kind,
                name,
            ) == has(endpoints, kind, name, Part::Message),
        forall|kind: InterfaceKind|
            kind == InterfaceKind::ServiceSrv || kind == InterfaceKind::ServiceCli ==> (
            #[trigger] complete(endpoints, kind, name)) == (has(
                endpoints,
                kind,
                name,
                Part::Request,
            ) && has(endpoints, kind, name, Part::Reply)),
        forall|kind: InterfaceKind|
            kind == InterfaceKind::ActionSrv || kind == InterfaceKind::ActionCli ==> (
            #[trigger] complete(endpoints, kind, name)) == (has(
                endpoints,
                kind,
                name,
                Part::SendGoalRequest,
            ) && has(endpoints, kind, name, Part::SendGoalReply) && has(
                endpoints,
                kind,
                name,
                Part::CancelGoalRequest,
            ) && has(endpoints, kind, name, Part::CancelGoalReply) && has(
                endpoints,
                kind,
                name,
                Part::GetResultRequest,
            ) && has(endpoints, kind, name, Part::GetResultReply) && has(
                endpoints,
                kind,
                name,
                Part::Status,
            ) && has(endpoints, kind, name, Part::Feedback)),
{
    assert forall|kind: InterfaceKind, part: Part| #[trigger]
        part_there(endpoints, kind, name, part) == has(endpoints, kind, name, part) by {
        if part_there(endpoints, kind, name, part) {
            let i = choose|i: int|
                0 <= i < endpoints.len() && serves(#[trigger] endpoints[i], kind, name, part);
            assert(endpoints[i].kind == kind);
        }
        if has(endpoints, kind, name, part) {
            let i = choose|i: int|
                0 <= i < endpoints.len() && (#[trigger] endpoints[i]).kind == kind
                    && endpoints[i].name == name && endpoints[i].part == part;
            assert(serves(endpoints[i], kind, name, part));
        }
    }
    assert forall|kind: InterfaceKind, part: Part|
        needed(kind, part) && #[trigger] complete(endpoints, kind, name) implies #[trigger] has(
        endpoints,
        kind,
        name,
        part,
    ) by {
        assert(part_there(endpoints, kind, name, part));
    }
    assert forall|kind: InterfaceKind|
        kind == InterfaceKind::ActionSrv || kind == InterfaceKind::ActionCli implies (
    #[trigger] complete(endpoints, kind, name)) == (has(
        endpoints,
        kind,
        name,
        Part::SendGoalRequest,
    ) && has(endpoints, kind, name, Part::SendGoalReply) && has(
        endpoints,
        kind,
        name,
        Part::CancelGoalRequest,
    ) && has(endpoints, kind, name, Part::CancelGoalReply) && has(
        endpoints,
        kind,
        name,
        Part::GetResultRequest,
    ) && has(endpoints, kind, name, Part::GetResultReply) && has(
        endpoints,
        kind,
        name,
        Part::Status,
    ) && has(endpoints, kind, name, Part::Feedback)) by {
        assert(needed(kind, Part::SendGoalRequest));
        assert(needed(kind, Part::SendGoalReply));
        assert(needed(kind, Part::CancelGoalRequest));
        assert(needed(kind, Part::CancelGoalReply));
        assert(needed(kind, Part::GetResultRequest));
        assert(needed(kind, Part::GetResultReply));
        assert(needed(kind, Part::Status));
        assert(needed(kind, Part::Feedback));
    }
}

// ---------------------------------------------------------------------------
// Names
// ---------------------------------------------------------------------------

/// The full name of a node is its name behind its namespace and a slash. The root
/// namespace is that slash.
pub proof fn law_full_name(namespace: Seq<char>, name: Seq<char>)
    ensures
        full_name(seq!['/'], name) == seq!['/'] + name,
        namespace != seq!['/'] ==> full_name(namespace, name) == namespace + seq!['/'] + name,
{
    reveal_strlit("/");
    assert("/"@ =~= seq!['/']);
}

/// The status and the feedback of an action belong to it, whatever its name is, and
/// a name without an action in it belongs to none.
pub proof fn law_action_topics_are_known(name: Seq<char>)
    ensures
        message_for_action(name + "/_action/status"@),
        message_for_action(name + "/_action/feedback"@),
        !has_part(name, "/_action/"@) ==> !message_for_action(name),
{
    let a = name + "/_action/status"@;
    let b = name + "/_action/feedback"@;
    assert(a.subrange(name.len() as int, a.len() as int) =~= "/_action/status"@);
    assert(b.subrange(name.len() as int, b.len() as int) =~= "/_action/feedback"@);
    reveal_strlit("/_action/");
    reveal_strlit("/_action/status");
    reveal_strlit("/_action/feedback");
    if "/_action/status"@.is_suffix_of(name) {
        let i = name.len() - "/_action/status"@.len();
        assert(name.subrange(i, name.len() as int) =~= "/_action/status"@);
        assert(name.subrange(i, i + 9) =~= "/_action/status"@.subrange(0, 9));
        assert("/_action/status"@.subrange(0, 9) =~= "/_action/"@);
        assert(occurs_at(name, "/_action/"@, i));
    }
    if "/_action/feedback"@.is_suffix_of(name) {
        let i = name.len() - "/_action/feedback"@.len();
        assert(name.subrange(i, name.len() as int) =~= "/_action/feedback"@);
        assert(name.subrange(i, i + 9) =~= "/_action/feedback"@.subrange(0, 9));
        assert("/_action/feedback"@.subrange(0, 9) =~= "/_action/"@);
        assert(occurs_at(name, "/_action/"@, i));
    }
}

// ---------------------------------------------------------------------------
// Types
// ---------------------------------------------------------------------------

proof fn lemma_colons_parted(a: Seq<char>, b: Seq<char>)
    ensures
        with_colons(a + b) == with_colons(a) + with_colons(b),
    decreases b.len(),
{
    if b.len() == 0 {
        assert(a + b =~= a);
        assert(with_colons(a) + Seq::<char>::empty() =~= with_colons(a));
    } else {
        lemma_colons_parted(a, b.drop_last());
        assert((a + b).drop_last() =~= a + b.drop_last());
        assert((a + b).last() == b.last());
        assert(with_colons(a + b) =~= with_colons(a) + with_colons(b));
    }
}

proof fn lemma_no_slash(s: Seq<char>)
    requires
        !s.contains('/'),
    ensures
        with_colons(s) == s,
    decreases s.len(),
{
    if s.len() > 0 {
        let rest = s.drop_last();
        if rest.contains('/') {
            let i = choose|i: int| 0 <= i < rest.len() && rest[i] == '/';
            assert(s[i] == '/');
        }
        lemma_no_slash(rest);
        assert(s[s.len() - 1] == s.last());
        assert(rest.push(s.last()) =~= s);
    } else {
        assert(with_colons(s) =~= s);
    }
}

/// The DDS type of `<package>/<kind>/<name>` is `<package>::<kind>::dds_::<name>_`.
pub proof fn law_dds_type_of_message(package: Seq<char>, kind: Seq<char>, name: Seq<char>)
    requires
        !package.contains('/'),
        !kind.contains('/'),
        !name.contains('/'),
        !name.contains(':'),
    ensures
        dds_message_type(package + seq!['/'] + kind + seq!['/'] + name) == package + seq![':', ':']
            + kind + seq![':', ':', 'd', 'd', 's', '_', ':', ':'] + name + seq!['_'],
{
    let slash = seq!['/'];
    let colons = seq![':', ':'];
    let all = package + slash + kind + slash + name;
    lemma_colons_parted(package + slash + kind + slash, name);
    lemma_colons_parted(package + slash + kind, slash);
    lemma_colons_parted(package + slash, kind);
    lemma_colons_parted(package, slash);
    lemma_no_slash(package);
    lemma_no_slash(kind);
    lemma_no_slash(name);
    assert(slash.drop_last() =~= Seq::empty());
    assert(with_colons(Seq::<char>::empty()) =~= Seq::<char>::empty());
    assert(with_colons(slash) =~= colons);
    let front = package + colons + kind + colons;
    let s = with_colons(all);
    assert(s =~= front + name);
    lemma_last_colon(s);
    let i = last_colon(s);
    assert(s[front.len() - 1] == ':');
    if i >= front.len() {
        assert(s[i] == name[i - front.len()]);
        assert(name.contains(':'));
    }
    assert(i == front.len() - 1);
    assert(s.take(i + 1) =~= front);
    assert(s.skip(i + 1) =~= name);
    reveal_strlit("dds_::");
    reveal_strlit("_");
    assert(dds_message_type(all) =~= package + colons + kind + seq![
        ':',
        ':',
        'd',
        'd',
        's',
        '_',
        ':',
        ':',
    ] + name + seq!['_']);
}

/// The DDS type of a name alone is that name with an underscore behind it.
pub proof fn law_dds_type_of_bare_name(name: Seq<char>)
    requires
        !name.contains('/'),
        !name.contains(':'),
    ensures
        dds_message_type(name) == name + seq!['_'],
{
    lemma_no_slash(name);
    lemma_last_colon(name);
    let i = last_colon(name);
    if i >= 0 {
        assert(name[i] == ':');
        assert(name.contains(':'));
    }
    reveal_strlit("_");
    assert("_"@ =~= seq!['_']);
}

} // verus!
