//! What holds after any number of reports, in any order.
use crate::dds::{EntityView, ParticipantView};
use crate::discovery_laws::{
    law_added_entity_is_sticky, law_declaration_is_sticky, law_removed_entity_is_sticky,
    law_removed_participant_is_sticky, law_start_is_sticky, law_sweep_is_sticky, orphan_owns_at,
    real_claimed, sticky,
};
use crate::discovery_model::{no_entities, orphan_owns, orphan_owns_in, EntitiesView};
use crate::discovery_wf::{
    lemma_entity_added, lemma_entity_removed, lemma_participant_added, lemma_participant_declared,
    lemma_participant_removed, lemma_swept,
};
use crate::gid::Gid;
use crate::ros_discovery::ParticipantDeclView;
use vstd::prelude::*;

verus! {

/// Something that is reported about the entities, or a sweep for orphans.
pub enum Report {
    ParticipantAdded(ParticipantView),
    ParticipantRemoved(Gid),
    WriterAdded(EntityView),
    WriterRemoved(Gid),
    ReaderAdded(EntityView),
    ReaderRemoved(Gid),
    Declared(ParticipantDeclView),
    Swept,
}

/// What is known after one more report.
pub open spec fn after_report(v: EntitiesView, report: Report) -> EntitiesView {
    match report {
        Report::ParticipantAdded(p) => v.participant_added(p),
        Report::ParticipantRemoved(gid) => v.participant_removed(gid).0,
        Report::WriterAdded(e) => v.entity_added(e, true).0,
        Report::WriterRemoved(gid) => v.entity_removed(gid, true).0,
        Report::ReaderAdded(e) => v.entity_added(e, false).0,
        Report::ReaderRemoved(gid) => v.entity_removed(gid, false).0,
        Report::Declared(info) => v.participant_declared(info).0,
        Report::Swept => v.swept().0,
    }
}

/// What is known after the reports.
pub open spec fn after_reports(v: EntitiesView, reports: Seq<Report>) -> EntitiesView
    decreases reports.len(),
{
    if reports.len() == 0 {
        v
    } else {
        after_report(after_reports(v, reports.drop_last()), reports.last())
    }
}

/// Whether the report ends the Writer `gid`, or the participant that it belongs
/// to.
pub open spec fn ends_writer(report: Report, participant: Gid, gid: Gid) -> bool {
    match report {
        Report::ParticipantRemoved(p) => p == participant,
        Report::WriterRemoved(g) => g == gid,
        _ => false,
    }
}

proof fn lemma_after_report(v: EntitiesView, report: Report)
    requires
        v.wf(),
        sticky(v.nodes),
    ensures
        after_report(v, report).wf(),
        sticky(after_report(v, report).nodes),
        forall|h: Gid, g: Gid|
            !ends_writer(report, h, g) && #[trigger] orphan_owns_at(v.nodes, h, g)
                ==> orphan_owns_at(after_report(v, report).nodes, h, g),
{
    match report {
        Report::ParticipantAdded(p) => {
            lemma_participant_added(v, p);
        },
        Report::ParticipantRemoved(gid) => {
            lemma_participant_removed(v, gid);
            law_removed_participant_is_sticky(v, gid);
        },
        Report::WriterAdded(e) => {
            lemma_entity_added(v, e, true);
            law_added_entity_is_sticky(v, e, true);
        },
        Report::WriterRemoved(gid) => {
            lemma_entity_removed(v, gid, true);
            law_removed_entity_is_sticky(v, gid, true);
        },
        Report::ReaderAdded(e) => {
            lemma_entity_added(v, e, false);
            law_added_entity_is_sticky(v, e, false);
        },
        Report::ReaderRemoved(gid) => {
            lemma_entity_removed(v, gid, false);
            law_removed_entity_is_sticky(v, gid, false);
        },
        Report::Declared(info) => {
            lemma_participant_declared(v, info);
            law_declaration_is_sticky(v, info);
        },
        Report::Swept => {
            lemma_swept(v);
            law_sweep_is_sticky(v);
        },
    }
}

proof fn lemma_after_reports(v: EntitiesView, reports: Seq<Report>)
    requires
        v.wf(),
        sticky(v.nodes),
    ensures
        after_reports(v, reports).wf(),
        sticky(after_reports(v, reports).nodes),
    decreases reports.len(),
{
    if reports.len() > 0 {
        lemma_after_reports(v, reports.drop_last());
        lemma_after_report(after_reports(v, reports.drop_last()), reports.last());
    }
}

/// Whatever is reported, and in whatever order: there is one entity for an
/// identifier, all that is known stands in the admin space under its key, and no
/// Writer that an orphan node owns is claimed by a declared node.
pub proof fn law_every_history_is_sound(reports: Seq<Report>)
    ensures
        after_reports(no_entities(), reports).wf(),
        sticky(after_reports(no_entities(), reports).nodes),
{
    law_start_is_sticky();
    lemma_after_reports(no_entities(), reports);
}

/// A Writer that was forwarded as an orphan stays with the orphan node of its
/// participant for life, and no declared node gets it, whatever is reported
/// until it ends.
pub proof fn law_orphan_for_life(
    v: EntitiesView,
    reports: Seq<Report>,
    participant: Gid,
    gid: Gid,
)
    requires
        v.wf(),
        sticky(v.nodes),
        orphan_owns_at(v.nodes, participant, gid),
        forall|i: int|
            0 <= i < reports.len() ==> !ends_writer(#[trigger] reports[i], participant, gid),
    ensures
        orphan_owns_at(after_reports(v, reports).nodes, participant, gid),
        !real_claimed(after_reports(v, reports).nodes, gid),
    decreases reports.len(),
{
    if reports.len() > 0 {
        let before = reports.drop_last();
        assert forall|i: int| 0 <= i < before.len() implies !ends_writer(
            #[trigger] before[i],
            participant,
            gid,
        ) by {
            assert(before[i] == reports[i]);
        }
        law_orphan_for_life(v, before, participant, gid);
        assert(!ends_writer(reports[reports.len() - 1], participant, gid));
        lemma_after_reports(v, before);
        lemma_after_report(after_reports(v, before), reports.last());
    }
    lemma_after_reports(v, reports);
    let nodes = after_reports(v, reports).nodes;
    let p = choose|p: int|
        0 <= p < nodes.len() && (#[trigger] nodes[p]).gid == participant && orphan_owns_in(
            nodes[p].slots,
            gid,
        );
    assert(orphan_owns_in(nodes[p].slots, gid));
    assert(orphan_owns(nodes, gid));
}

} // verus!
