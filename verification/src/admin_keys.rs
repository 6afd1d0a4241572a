//! The keys under which discovered entities stand in the admin space.
//!
//! A participant stands at `dds/<gid>`, a Writer at
//! `dds/<participant gid>/writer/<gid>/<topic>`, a Reader at
//! `dds/<participant gid>/reader/<gid>/<topic>`, and a node at
//! `node/<participant gid><full name>`.
use crate::dds::EntityView;
use crate::discovery_model::ORPHAN_NODE_NAME;
use crate::gid::{law_hex_injective, law_hex_shape, Gid};
use crate::key_expr::{format_key, key_text, literal, plain};
use crate::naming::full_name;
use crate::text::{join2, join3};
use vstd::prelude::*;

verus! {

/// Where a participant stands.
pub open spec fn participant_key(gid: Gid) -> Seq<char> {
    key_text("dds"@, gid.hex())
}

/// What stands in front of the topic in the key of a Writer or a Reader.
pub open spec fn entity_prefix(participant: Gid, gid: Gid, writer: bool) -> Seq<char> {
    "dds/"@ + participant.hex() + (if writer {
        "/writer/"@
    } else {
        "/reader/"@
    }) + gid.hex()
}

/// Where a Writer or a Reader stands.
pub open spec fn entity_key(e: EntityView, writer: bool) -> Seq<char> {
    key_text(entity_prefix(e.participant_key, e.key, writer), e.topic_name)
}

/// What identifies a node among those of all participants.
pub open spec fn node_id(participant: Gid, fullname: Seq<char>) -> Seq<char> {
    participant.hex() + fullname
}

/// Where a node stands.
pub open spec fn node_key(participant: Gid, fullname: Seq<char>) -> Seq<char> {
    key_text("node"@, node_id(participant, fullname))
}

/// The text of an identifier is a plain key expression.
pub proof fn lemma_hex_plain(gid: Gid)
    ensures
        plain(gid.hex()),
{
    law_hex_shape(gid);
    let s = gid.hex();
    assert forall|i: int| 0 <= i < s.len() implies #[trigger] s[i] != '*' && s[i] != '$' && s[i]
        != '#' && s[i] != '?' && s[i] != '/' && s[i] != '@' by {
        let c = gid.hex()[i];
        assert(('0' <= c && c <= '9') || ('a' <= c && c <= 'f'));
    }
}

/// The prefix of an entity's key is a plain key expression of fixed length.
pub proof fn lemma_prefix_plain(participant: Gid, gid: Gid, writer: bool)
    ensures
        plain(entity_prefix(participant, gid, writer)),
        entity_prefix(participant, gid, writer).len() == 76,
{
    reveal_strlit("dds/");
    reveal_strlit("/writer/");
    reveal_strlit("/reader/");
    lemma_hex_plain(participant);
    lemma_hex_plain(gid);
    law_hex_shape(participant);
    law_hex_shape(gid);
    let p = participant.hex();
    let g = gid.hex();
    let s = entity_prefix(participant, gid, writer);
    assert forall|i: int| 0 <= i < s.len() implies #[trigger] s[i] != '*' && s[i] != '$' && s[i]
        != '#' && s[i] != '?' && s[i] != '@' by {
        if 4 <= i < 36 {
            assert(s[i] == p[i - 4]);
        } else if 44 <= i {
            assert(s[i] == g[i - 44]);
        }
    }
    assert forall|i: int| 0 <= i < s.len() - 1 implies !(#[trigger] s[i] == '/' && s[i + 1]
        == '/') by {
        if 4 <= i < 36 {
            assert(s[i] == p[i - 4]);
            let c = participant.hex()[i - 4];
            assert(('0' <= c && c <= '9') || ('a' <= c && c <= 'f'));
        } else if 44 <= i {
            assert(s[i] == g[i - 44]);
            let c = gid.hex()[i - 44];
            assert(('0' <= c && c <= '9') || ('a' <= c && c <= 'f'));
        } else if i == 3 {
            assert(s[4] == p[0]);
            let c = participant.hex()[0];
            assert(('0' <= c && c <= '9') || ('a' <= c && c <= 'f'));
        } else if i == 43 {
            assert(s[44] == g[0]);
            let c = gid.hex()[0];
            assert(('0' <= c && c <= '9') || ('a' <= c && c <= 'f'));
        }
    }
    assert(s[75] == g[31]);
    let c = gid.hex()[31];
    assert(('0' <= c && c <= '9') || ('a' <= c && c <= 'f'));
}

proof fn lemma_cut(a: Seq<char>, b: Seq<char>, c: Seq<char>, d: Seq<char>)
    requires
        a.len() == c.len(),
        a + b == c + d,
    ensures
        a == c,
        b == d,
{
    assert(a =~= (a + b).take(a.len() as int));
    assert(c =~= (c + d).take(a.len() as int));
    assert(b =~= (a + b).skip(a.len() as int));
    assert(d =~= (c + d).skip(a.len() as int));
}

/// Two entities that stand under the same key have the same participant,
/// identifier and topic, and both are Writers or both are Readers.
pub proof fn law_entity_key_injective(a: EntityView, aw: bool, b: EntityView, bw: bool)
    requires
        entity_key(a, aw) == entity_key(b, bw),
    ensures
        aw == bw,
        a.participant_key == b.participant_key,
        a.key == b.key,
        a.topic_name == b.topic_name,
{
    reveal_strlit("dds/");
    reveal_strlit("/writer/");
    reveal_strlit("/reader/");
    lemma_prefix_plain(a.participant_key, a.key, aw);
    lemma_prefix_plain(b.participant_key, b.key, bw);
    law_hex_shape(a.participant_key);
    law_hex_shape(b.participant_key);
    let pa = entity_prefix(a.participant_key, a.key, aw);
    let pb = entity_prefix(b.participant_key, b.key, bw);
    let ta = if a.topic_name.len() == 0 {
        Seq::<char>::empty()
    } else {
        seq!['/'] + a.topic_name
    };
    let tb = if b.topic_name.len() == 0 {
        Seq::<char>::empty()
    } else {
        seq!['/'] + b.topic_name
    };
    assert(entity_key(a, aw) =~= pa + ta);
    assert(entity_key(b, bw) =~= pb + tb);
    lemma_cut(pa, ta, pb, tb);
    if a.topic_name.len() > 0 {
        assert(a.topic_name =~= ta.skip(1));
    }
    if b.topic_name.len() > 0 {
        assert(b.topic_name =~= tb.skip(1));
    }
    assert(a.topic_name =~= b.topic_name);
    let ka = if aw {
        "/writer/"@
    } else {
        "/reader/"@
    };
    let kb = if bw {
        "/writer/"@
    } else {
        "/reader/"@
    };
    lemma_cut("dds/"@ + a.participant_key.hex() + ka, a.key.hex(), "dds/"@ + b.participant_key.hex()
        + kb, b.key.hex());
    lemma_cut("dds/"@ + a.participant_key.hex(), ka, "dds/"@ + b.participant_key.hex(), kb);
    lemma_cut("dds/"@, a.participant_key.hex(), "dds/"@, b.participant_key.hex());
    assert("/writer/"@[1] == 'w');
    assert("/reader/"@[1] == 'r');
    law_hex_injective(a.participant_key, b.participant_key);
    law_hex_injective(a.key, b.key);
}

/// Two participants that stand under the same key are the same.
pub proof fn law_participant_key_injective(a: Gid, b: Gid)
    requires
        participant_key(a) == participant_key(b),
    ensures
        a == b,
{
    law_hex_shape(a);
    law_hex_shape(b);
    lemma_cut("dds"@ + seq!['/'], a.hex(), "dds"@ + seq!['/'], b.hex());
    law_hex_injective(a, b);
}

/// Two nodes that stand under the same key have the same participant and the
/// same full name.
pub proof fn law_node_key_injective(pa: Gid, fa: Seq<char>, pb: Gid, fb: Seq<char>)
    requires
        node_key(pa, fa) == node_key(pb, fb),
    ensures
        pa == pb,
        fa == fb,
{
    law_hex_shape(pa);
    law_hex_shape(pb);
    lemma_cut("node"@ + seq!['/'], pa.hex() + fa, "node"@ + seq!['/'], pb.hex() + fb);
    lemma_cut(pa.hex(), fa, pb.hex(), fb);
    law_hex_injective(pa, pb);
}

/// Participants, Writers or Readers, and nodes stand under different keys.
pub proof fn law_keys_disjoint(gid: Gid, e: EntityView, writer: bool, participant: Gid, fullname: Seq<char>)
    ensures
        participant_key(gid) != entity_key(e, writer),
        participant_key(gid) != node_key(participant, fullname),
        entity_key(e, writer) != node_key(participant, fullname),
{
    reveal_strlit("dds");
    reveal_strlit("dds/");
    reveal_strlit("node");
    law_hex_shape(gid);
    law_hex_shape(participant);
    lemma_prefix_plain(e.participant_key, e.key, writer);
    assert(participant_key(gid).len() == 36);
    assert(entity_key(e, writer).len() >= 76);
    assert(participant_key(gid)[0] == 'd');
    assert(node_key(participant, fullname)[0] == 'n');
    assert(entity_prefix(e.participant_key, e.key, writer)[0] == 'd');
    assert(entity_key(e, writer)[0] == 'd');
}

/// The identifier of the orphan node of a participant is a plain key expression.
pub proof fn lemma_orphan_id_plain(participant: Gid)
    ensures
        plain(node_id(participant, full_name("/"@, ORPHAN_NODE_NAME@))),
{
    reveal_strlit("/");
    reveal_strlit("_zenoh_orphan_endpoints_");
    law_hex_shape(participant);
    lemma_hex_plain(participant);
    let p = participant.hex();
    let f = "/"@ + ORPHAN_NODE_NAME@;
    let s = p + f;
    assert(f.len() == 25);
    assert forall|i: int| 0 <= i < f.len() implies #[trigger] f[i] != '*' && f[i] != '$' && f[i]
        != '#' && f[i] != '?' && f[i] != '@' && (i > 0 ==> f[i] != '/') by {}
    assert forall|i: int| 0 <= i < s.len() implies #[trigger] s[i] != '*' && s[i] != '$' && s[i]
        != '#' && s[i] != '?' && s[i] != '@' && (i != 32 ==> s[i] != '/') by {
        if i < 32 {
            let c = participant.hex()[i];
            assert(('0' <= c && c <= '9') || ('a' <= c && c <= 'f'));
            assert(s[i] == p[i]);
        } else {
            assert(s[i] == f[i - 32]);
        }
    }
    assert(literal(s));
}

/// Where a participant stands.
pub fn participant_key_of(gid: &Gid) -> (r: String)
    ensures
        r@ == participant_key(*gid),
{
    let hex = gid.to_hex();
    proof {
        reveal_strlit("dds");
        lemma_hex_plain(*gid);
    }
    match format_key("dds", &hex) {
        Some(key) => key,
        None => hex,
    }
}

/// What stands in front of the topic in the key of a Writer or a Reader.
pub fn entity_prefix_of(participant: &Gid, gid: &Gid, writer: bool) -> (r: String)
    ensures
        r@ == entity_prefix(*participant, *gid, writer),
{
    let head = join2("dds/", &participant.to_hex());
    let middle = if writer {
        "/writer/"
    } else {
        "/reader/"
    };
    join3(&head, middle, &gid.to_hex())
}

} // verus!
