//! JSON values, as far as the admin space trims them.
use crate::text::same_text;
use vstd::prelude::*;

verus! {

/// A JSON value. A number is kept as its text.
#[derive(Debug, PartialEq)]
pub enum Json {
    Null,
    Bool(bool),
    Number(String),
    Text(String),
    Array(Vec<Json>),
    Object(Vec<Member>),
}

/// A member of a JSON object.
#[derive(Debug, PartialEq)]
pub struct Member {
    pub name: String,
    pub value: Json,
}

/// The members whose value is not null, in order.
pub open spec fn not_null(members: Seq<Member>) -> Seq<Member> {
    members.filter(|m: Member| m.value !is Null)
}

/// Whether `i` is the place of the first member with the given name.
pub open spec fn first_named(members: Seq<Member>, name: Seq<char>, i: int) -> bool {
    0 <= i < members.len() && members[i].name@ == name && forall|j: int|
        0 <= j < i ==> (#[trigger] members[j]).name@ != name
}

/// Whether `after` is the value `before` where the quality of service has lost
/// its null values: in an object whose member `qos` is an object, that object
/// has only its members that are not null, and all else is as it was.
pub open spec fn trimmed(before: Json, after: Json) -> bool {
    match before {
        Json::Object(members) => after matches Json::Object(left) && left@.len() == members@.len()
            && forall|i: int|
            0 <= i < members@.len() ==> member_trimmed(members@, i, #[trigger] left@[i]),
        _ => after == before,
    }
}

/// What `trimmed` says of the member at `i`.
pub open spec fn member_trimmed(members: Seq<Member>, i: int, after: Member) -> bool {
    if first_named(members, "qos"@, i) && members[i].value is Object {
        after.name == members[i].name && (after.value matches Json::Object(qos) && qos@ == not_null(
            members[i].value->Object_0@,
        ))
    } else {
        after == members[i]
    }
}

/// Drops the members of an object whose value is null.
fn drop_nulls(members: Vec<Member>) -> (r: Vec<Member>)
    ensures
        r@ == not_null(members@),
{
    let mut members = members;
    let ghost all = members@;
    let ghost keep = |m: Member| m.value !is Null;
    let ghost mut k: int = 0;
    let mut i: usize = 0;
    proof {
        reveal(Seq::filter);
        assert(members@ =~= all.take(0).filter(keep) + all.skip(0));
    }
    while i < members.len()
        invariant
            keep == (|m: Member| m.value !is Null),
            0 <= k <= all.len(),
            i == all.take(k).filter(keep).len(),
            members@.len() == i + (all.len() - k),
            members@ == all.take(k).filter(keep) + all.skip(k),
        decreases members@.len() - i,
    {
        let ghost head = all.take(k).filter(keep);
        proof {
            reveal(Seq::filter);
            assert(members@[i as int] == all[k]);
            assert(all.take(k + 1).drop_last() =~= all.take(k));
            assert(all.take(k + 1).last() == all[k]);
        }
        let null = match &members[i].value {
            Json::Null => true,
            _ => false,
        };
        if null {
            let _ = members.remove(i);
            proof {
                assert(members@ =~= head + all.skip(k + 1));
                k = k + 1;
            }
        } else {
            i = i + 1;
            proof {
                assert(head.push(all[k]) + all.skip(k + 1) =~= head + all.skip(k));
                k = k + 1;
            }
        }
    }
    proof {
        assert(all.take(k) =~= all);
        assert(all.take(k).filter(keep) + all.skip(k) =~= all.take(k).filter(keep));
    }
    members
}

/// Removes the null values from the quality of service in a JSON value. An error
/// is handed on.
pub fn remove_null_qos_values<E>(value: Result<Json, E>) -> (r: Result<Json, E>)
    ensures
        match value {
            Ok(before) => r matches Ok(after) && trimmed(before, after),
            Err(e) => r == Err::<Json, E>(e),
        },
{
    let json = match value {
        Ok(json) => json,
        Err(e) => {
            return Err(e);
        },
    };
    let mut members = match json {
        Json::Object(members) => members,
        other => {
            return Ok(other);
        },
    };
    let ghost all = members@;
    let n: usize = members.len();
    for i in 0..n
        invariant
            n == members@.len(),
            all == members@,
            value == Ok::<Json, E>(json),
            json == Json::Object(members),
            forall|j: int| 0 <= j < i ==> (#[trigger] all[j]).name@ != "qos"@,
    {
        if same_text(&members[i].name, "qos") {
            let mut inner = Json::Null;
            std::mem::swap(&mut inner, &mut members[i].value);
            let left = match inner {
                Json::Object(qos) => Json::Object(drop_nulls(qos)),
                other => other,
            };
            members[i].value = left;
            assert forall|j: int| 0 <= j < members@.len() implies member_trimmed(
                all,
                j,
                #[trigger] members@[j],
            ) by {
                if j != i {
                    assert(members@[j] == all[j]);
                }
            }
            return Ok(Json::Object(members));
        }
    }
    Ok(Json::Object(members))
}

/// No null value is left, what is left was there before, and all that was not
/// null is left.
pub proof fn law_only_nulls_are_dropped(members: Seq<Member>)
    ensures
        forall|i: int|
            0 <= i < not_null(members).len() ==> (#[trigger] not_null(members)[i]).value !is Null
                && members.contains(not_null(members)[i]),
        forall|j: int|
            0 <= j < members.len() && (#[trigger] members[j]).value !is Null ==> not_null(
                members,
            ).contains(members[j]),
    decreases members.len(),
{
    reveal(Seq::filter);
    if members.len() > 0 {
        let rest = members.drop_last();
        law_only_nulls_are_dropped(rest);
        let before = not_null(rest);
        let after = not_null(members);
        assert forall|i: int| 0 <= i < after.len() implies (#[trigger] after[i]).value !is Null
            && members.contains(after[i]) by {
            if i < before.len() {
                assert(after[i] == before[i]);
                let j = choose|j: int| 0 <= j < rest.len() && rest[j] == before[i];
                assert(members[j] == after[i]);
            } else {
                assert(members[members.len() - 1] == after[i]);
            }
        }
        assert forall|j: int|
            0 <= j < members.len() && (#[trigger] members[j]).value !is Null implies after.contains(
            members[j],
        ) by {
            if j < rest.len() {
                assert(rest[j] == members[j]);
                assert(before.contains(rest[j]));
                let i = choose|i: int| 0 <= i < before.len() && before[i] == rest[j];
                assert(after[i] == members[j]);
            } else {
                assert(after[before.len() as int] == members[j]);
            }
        }
    }
}

/// To drop the null values a second time changes nothing.
pub proof fn law_dropping_nulls_is_idempotent(members: Seq<Member>)
    ensures
        not_null(not_null(members)) == not_null(members),
{
    law_only_nulls_are_dropped(members);
    lemma_nothing_to_drop(not_null(members));
}

proof fn lemma_nothing_to_drop(members: Seq<Member>)
    requires
        forall|i: int| 0 <= i < members.len() ==> (#[trigger] members[i]).value !is Null,
    ensures
        not_null(members) == members,
    decreases members.len(),
{
    reveal(Seq::filter);
    if members.len() > 0 {
        let rest = members.drop_last();
        assert forall|i: int| 0 <= i < rest.len() implies (#[trigger] rest[i]).value !is Null by {
            assert(rest[i] == members[i]);
        }
        lemma_nothing_to_drop(rest);
        assert(members[members.len() - 1].value !is Null);
        assert(rest.push(members.last()) =~= members);
    } else {
        assert(not_null(members) =~= members);
    }
}

/// To trim a value is to drop, from the object under its first `qos`, the members
/// that are null, and nothing else: all other members stay, each with its name and
/// in its place, and a value that is no object stays as it is.
pub proof fn law_only_the_policies_are_trimmed(before: Json, after: Json)
    requires
        trimmed(before, after),
    ensures
        before !is Object ==> after == before,
        before matches Json::Object(members) ==> (after matches Json::Object(left) && left@.len()
            == members@.len() && (forall|i: int|
            0 <= i < members@.len() ==> (#[trigger] left@[i]).name@ == members@[i].name@) && (forall|
            i: int,
        |
            0 <= i < members@.len() && (members@[i].name@ != seq!['q', 'o', 's']
                || members@[i].value !is Object) ==> #[trigger] left@[i] == members@[i]) && (forall|
            i: int,
        |
            0 <= i < members@.len() && is_policies(members@, i) ==> only_nulls_dropped(
                members@[i].value,
                (#[trigger] left@[i]).value,
            ))),
{
    reveal_strlit("qos");
    assert("qos"@ =~= seq!['q', 'o', 's']);
    if let Json::Object(members) = before {
        let left = after->Object_0;
        assert forall|i: int| 0 <= i < members@.len() implies (#[trigger] left@[i]).name@
            == members@[i].name@ by {
            assert(member_trimmed(members@, i, left@[i]));
        }
        assert forall|i: int|
            0 <= i < members@.len() && (members@[i].name@ != seq!['q', 'o', 's']
                || members@[i].value !is Object) implies #[trigger] left@[i] == members@[i] by {
            assert(member_trimmed(members@, i, left@[i]));
        }
        assert forall|i: int| 0 <= i < members@.len() && is_policies(
            members@,
            i,
        ) implies only_nulls_dropped(members@[i].value, (#[trigger] left@[i]).value) by {
            assert(member_trimmed(members@, i, left@[i]));
            law_only_nulls_are_dropped(members@[i].value->Object_0@);
        }
    }
}

/// Whether the member is the first `qos`, and an object.
pub open spec fn is_policies(members: Seq<Member>, i: int) -> bool {
    &&& members[i].name@ == seq!['q', 'o', 's']
    &&& members[i].value is Object
    &&& forall|j: int| 0 <= j < i ==> (#[trigger] members[j]).name@ != seq!['q', 'o', 's']
}

/// Whether the second object has the members of the first that are not null, and no
/// others.
pub open spec fn only_nulls_dropped(before: Json, after: Json) -> bool {
    before matches Json::Object(all) && (after matches Json::Object(left) && (forall|i: int|
        0 <= i < left@.len() ==> (#[trigger] left@[i]).value !is Null && all@.contains(left@[i]))
        && (forall|j: int|
        0 <= j < all@.len() && (#[trigger] all@[j]).value !is Null ==> left@.contains(all@[j])))
}

} // verus!
