//! What queries on the admin space find, and what its entries lead to.
use crate::admin_keys::{entity_key, node_key, participant_key};
use crate::dds::EntityView;
use crate::discovery_model::{
    node_at, query_matches, query_result, sub_matches, wild_matches, AdminQueryError, AdminView,
    EntitiesView, EntityRefView, EntityValueView,
};
use crate::discovery_wf::lemma_found;
use crate::gid::Gid;
use crate::key_expr::{keys_intersect, prefix_stripped};
use crate::table::{found, lemma_place, lookup, place, unique, HasKey};
use vstd::prelude::*;

verus! {

/// Whether the key expression asks for the entry: by a wildcard that meets its key,
/// or by its very key.
pub open spec fn asks_for(sub: Seq<char>, entry: AdminView) -> bool {
    if sub.contains('*') {
        keys_intersect(sub, entry.key) == Some(true)
    } else {
        sub == entry.key
    }
}

/// How often the entry is among the entries.
pub open spec fn times(entries: Seq<AdminView>, entry: AdminView) -> nat
    decreases entries.len(),
{
    if entries.len() == 0 {
        0
    } else {
        times(entries.drop_last(), entry) + if entries.last() == entry {
            1nat
        } else {
            0nat
        }
    }
}

proof fn lemma_times_parted(a: Seq<AdminView>, b: Seq<AdminView>, entry: AdminView)
    ensures
        times(a + b, entry) == times(a, entry) + times(b, entry),
    decreases b.len(),
{
    if b.len() == 0 {
        assert(a + b =~= a);
    } else {
        assert((a + b).drop_last() =~= a + b.drop_last());
        lemma_times_parted(a, b.drop_last(), entry);
    }
}

proof fn lemma_times_none(entries: Seq<AdminView>, entry: AdminView)
    requires
        forall|i: int| 0 <= i < entries.len() ==> #[trigger] entries[i] != entry,
    ensures
        times(entries, entry) == 0,
    decreases entries.len(),
{
    if entries.len() > 0 {
        let rest = entries.drop_last();
        assert forall|i: int| 0 <= i < rest.len() implies #[trigger] rest[i] != entry by {
            assert(rest[i] == entries[i]);
        }
        lemma_times_none(rest, entry);
        assert(entries[entries.len() - 1] != entry);
    }
}

proof fn lemma_wild(admin: Seq<AdminView>, sub: Seq<char>, n: nat)
    requires
        unique(admin),
        n <= admin.len(),
    ensures
        forall|j: int|
            0 <= j < admin.len() ==> times(wild_matches(admin, sub, n), #[trigger] admin[j]) == (
            if j < n && keys_intersect(sub, admin[j].key) == Some(true) {
                1nat
            } else {
                0nat
            }),
        forall|i: int|
            0 <= i < wild_matches(admin, sub, n).len() ==> admin.contains(
                #[trigger] wild_matches(admin, sub, n)[i],
            ),
    decreases n,
{
    if n > 0 {
        let m = (n - 1) as nat;
        lemma_wild(admin, sub, m);
        let before = wild_matches(admin, sub, m);
        let after = wild_matches(admin, sub, n);
        let last = admin[m as int];
        if keys_intersect(sub, last.key) == Some(true) {
            assert(after.drop_last() =~= before);
        }
        assert forall|j: int| 0 <= j < admin.len() implies times(after, #[trigger] admin[j]) == (
        if j < n && keys_intersect(sub, admin[j].key) == Some(true) {
            1nat
        } else {
            0nat
        }) by {
            assert(times(before, admin[j]) == (if j < m && keys_intersect(sub, admin[j].key)
                == Some(true) {
                1nat
            } else {
                0nat
            }));
            if j != m {
                lemma_place(admin, j);
                lemma_place(admin, m as int);
                assert(admin[j] != last);
            }
        }
        assert forall|i: int| 0 <= i < after.len() implies admin.contains(#[trigger] after[i]) by {
            if i < before.len() {
                assert(after[i] == before[i]);
            } else {
                assert(admin[m as int] == after[i]);
            }
        }
    } else {
        assert forall|j: int| 0 <= j < admin.len() implies times(
            wild_matches(admin, sub, n),
            #[trigger] admin[j],
        ) == 0 by {}
    }
}

/// A key expression finds every entry that it asks for, once, and no other.
pub proof fn law_query_finds_what_it_asks_for(admin: Seq<AdminView>, sub: Seq<char>)
    requires
        unique(admin),
    ensures
        forall|j: int|
            0 <= j < admin.len() ==> times(sub_matches(admin, sub), #[trigger] admin[j]) == (
            if asks_for(sub, admin[j]) {
                1nat
            } else {
                0nat
            }),
        forall|i: int|
            0 <= i < sub_matches(admin, sub).len() ==> admin.contains(
                #[trigger] sub_matches(admin, sub)[i],
            ),
{
    let result = sub_matches(admin, sub);
    if sub.contains('*') {
        lemma_wild(admin, sub, admin.len());
    } else {
        match lookup(admin, sub) {
            Some(entry) => {
                lemma_found(admin, sub);
                let p = place(admin, sub);
                assert(result == seq![entry]);
                assert(result.drop_last() =~= Seq::empty());
                assert forall|j: int| 0 <= j < admin.len() implies times(
                    result,
                    #[trigger] admin[j],
                ) == (if asks_for(sub, admin[j]) {
                    1nat
                } else {
                    0nat
                }) by {
                    lemma_place(admin, j);
                    assert(times(result.drop_last(), admin[j]) == 0);
                }
                assert(admin[p] == result[0]);
            },
            None => {
                assert forall|j: int| 0 <= j < admin.len() implies times(
                    result,
                    #[trigger] admin[j],
                ) == (if asks_for(sub, admin[j]) {
                    1nat
                } else {
                    0nat
                }) by {
                    if admin[j].key == sub {
                        assert(admin[j].key() == sub);
                        assert(found(admin, sub));
                    }
                }
            },
        }
    }
}

/// How many of the first `n` key expressions ask for the entry.
pub open spec fn asked_times(subs: Seq<Seq<char>>, entry: AdminView, n: nat) -> nat
    decreases n,
{
    if n == 0 {
        0
    } else {
        asked_times(subs, entry, (n - 1) as nat) + if asks_for(subs[n - 1], entry) {
            1nat
        } else {
            0nat
        }
    }
}

proof fn lemma_query(admin: Seq<AdminView>, subs: Seq<Seq<char>>, n: nat)
    requires
        unique(admin),
        n <= subs.len(),
    ensures
        forall|j: int|
            0 <= j < admin.len() ==> times(query_matches(admin, subs, n), #[trigger] admin[j])
                == asked_times(subs, admin[j], n),
        forall|i: int|
            0 <= i < query_matches(admin, subs, n).len() ==> admin.contains(
                #[trigger] query_matches(admin, subs, n)[i],
            ),
    decreases n,
{
    if n > 0 {
        let m = (n - 1) as nat;
        lemma_query(admin, subs, m);
        law_query_finds_what_it_asks_for(admin, subs[m as int]);
        let before = query_matches(admin, subs, m);
        let more = sub_matches(admin, subs[m as int]);
        let after = query_matches(admin, subs, n);
        assert forall|j: int| 0 <= j < admin.len() implies times(after, #[trigger] admin[j])
            == asked_times(subs, admin[j], n) by {
            lemma_times_parted(before, more, admin[j]);
        }
        assert forall|i: int| 0 <= i < after.len() implies admin.contains(#[trigger] after[i]) by {
            if i < before.len() {
                assert(after[i] == before[i]);
            } else {
                assert(after[i] == more[i - before.len()]);
            }
        }
    }
}

/// A selector is read below the prefix. Where it cannot be, that is said. Else each
/// way to read it finds what it asks for, and nothing else is found.
pub proof fn law_selector_is_read_below_the_prefix(
    admin: Seq<AdminView>,
    selector: Seq<char>,
    prefix: Seq<char>,
)
    requires
        unique(admin),
    ensures
        prefix_stripped(selector, prefix) is None <==> query_result(admin, selector, prefix)
            == Err::<Seq<AdminView>, AdminQueryError>(AdminQueryError::InvalidKeyExpr),
        (prefix_stripped(selector, prefix) matches Some(subs) && subs.len() == 0) <==> query_result(
            admin,
            selector,
            prefix,
        ) == Err::<Seq<AdminView>, AdminQueryError>(AdminQueryError::NotPrefixed),
        prefix_stripped(selector, prefix) matches Some(subs) ==> (subs.len() > 0 ==> (query_result(
            admin,
            selector,
            prefix,
        ) matches Ok(result) && (forall|j: int|
            0 <= j < admin.len() ==> times(result, #[trigger] admin[j]) == asked_times(
                subs,
                admin[j],
                subs.len(),
            )) && (forall|i: int|
            0 <= i < result.len() ==> admin.contains(#[trigger] result[i])))),
{
    if let Some(subs) = prefix_stripped(selector, prefix) {
        lemma_query(admin, subs, subs.len());
    }
}

/// An entry leads to what is known under the identifier that it holds, and to
/// nothing where nothing is.
pub proof fn law_entry_leads_to_its_entity(v: EntitiesView, gid: Gid, name: Seq<char>)
    ensures
        match v.resolved(EntityRefView::Participant(gid)) {
            Some(value) => value matches EntityValueView::Participant(p) && p.key == gid
                && v.participants.contains(p),
            None => forall|i: int|
                0 <= i < v.participants.len() ==> (#[trigger] v.participants[i]).key != gid,
        },
        match v.resolved(EntityRefView::Writer(gid)) {
            Some(value) => value matches EntityValueView::Writer(e) && e.key == gid
                && v.writers.contains(e),
            None => forall|i: int|
                0 <= i < v.writers.len() ==> (#[trigger] v.writers[i]).key != gid,
        },
        match v.resolved(EntityRefView::Reader(gid)) {
            Some(value) => value matches EntityValueView::Reader(e) && e.key == gid
                && v.readers.contains(e),
            None => forall|i: int|
                0 <= i < v.readers.len() ==> (#[trigger] v.readers[i]).key != gid,
        },
        match v.resolved(EntityRefView::Node(gid, name)) {
            Some(value) => value matches EntityValueView::Node(node) && node_at(v.nodes, gid, name)
                == Some(node),
            None => node_at(v.nodes, gid, name) is None,
        },
{
    if found(v.participants, gid) {
        lemma_found(v.participants, gid);
        assert(v.participants.contains(v.participants[place(v.participants, gid)]));
    } else {
        assert forall|i: int| 0 <= i < v.participants.len() implies (
        #[trigger] v.participants[i]).key != gid by {
            assert(v.participants[i].key() != gid);
        }
    }
    if found(v.writers, gid) {
        lemma_found(v.writers, gid);
        assert(v.writers.contains(v.writers[place(v.writers, gid)]));
    } else {
        assert forall|i: int| 0 <= i < v.writers.len() implies (#[trigger] v.writers[i]).key
            != gid by {
            assert(v.writers[i].key() != gid);
        }
    }
    if found(v.readers, gid) {
        lemma_found(v.readers, gid);
        assert(v.readers.contains(v.readers[place(v.readers, gid)]));
    } else {
        assert forall|i: int| 0 <= i < v.readers.len() implies (#[trigger] v.readers[i]).key
            != gid by {
            assert(v.readers[i].key() != gid);
        }
    }
}

/// The keys of the admin space, spelled out.
pub proof fn law_keys_are_spelled(gid: Gid, e: EntityView, fullname: Seq<char>)
    ensures
        participant_key(gid) == "dds/"@ + gid.hex(),
        e.topic_name.len() > 0 ==> entity_key(e, true) == "dds/"@ + e.participant_key.hex()
            + "/writer/"@ + e.key.hex() + "/"@ + e.topic_name,
        e.topic_name.len() > 0 ==> entity_key(e, false) == "dds/"@ + e.participant_key.hex()
            + "/reader/"@ + e.key.hex() + "/"@ + e.topic_name,
        e.topic_name.len() == 0 ==> entity_key(e, true) == "dds/"@ + e.participant_key.hex()
            + "/writer/"@ + e.key.hex(),
        e.topic_name.len() == 0 ==> entity_key(e, false) == "dds/"@ + e.participant_key.hex()
            + "/reader/"@ + e.key.hex(),
        node_key(gid, fullname) == "node/"@ + gid.hex() + fullname,
{
    reveal_strlit("dds");
    reveal_strlit("dds/");
    reveal_strlit("node");
    reveal_strlit("node/");
    reveal_strlit("/");
    crate::gid::law_hex_shape(gid);
    assert("dds"@ + seq!['/'] =~= "dds/"@);
    assert("node"@ + seq!['/'] =~= "node/"@);
    assert("/"@ =~= seq!['/']);
    assert(participant_key(gid) =~= "dds/"@ + gid.hex());
    assert(node_key(gid, fullname) =~= "node/"@ + gid.hex() + fullname);
}

} // verus!
