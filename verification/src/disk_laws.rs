//! What an import leaves as it was on the disk.
//!
//! A disk tells what lies at each place. A driver does what the job asks for, and
//! answers truly; nobody else writes.
use crate::import_laws::{accepted, job_stays_valid, run};
use crate::importer::{ActionView, ConflictResolution, EventView, JobView, StageView, TurnView};
use crate::message_laws::begins;
use vstd::prelude::*;

verus! {

/// A file at the destination: under the name of the file that it is a copy of, or under
/// another.
pub enum Target<P> {
    Own { path: P },
    Named { name: Seq<char> },
}

/// What a job asks for after events.
pub open spec fn asked<P>(begun: TurnView<P>, events: Seq<EventView<P>>) -> ActionView {
    if events.len() == 0 {
        begun.action
    } else {
        run(begun.job, events.drop_last()).step(events.last()).action
    }
}

/// The file that a job asks to be created.
pub open spec fn creates<P>(turn: TurnView<P>) -> Option<Target<P>> {
    match turn.action {
        ActionView::OpenFiles { index, target: None } => Some(
            Target::Own { path: turn.job.files[index] },
        ),
        ActionView::OpenFiles { target: Some(name), .. } => Some(Target::Named { name }),
        _ => None,
    }
}

/// The file that the job asked last to be created, if it asked for one.
pub open spec fn created<P>(begun: TurnView<P>, events: Seq<EventView<P>>) -> Option<Target<P>>
    decreases events.len(),
{
    if events.len() == 0 {
        None
    } else {
        let rest = events.drop_last();
        match creates(run(begun.job, rest).step(events.last())) {
            Some(file) => Some(file),
            None => created(begun, rest),
        }
    }
}

/// Whether two disks have the same at a place.
pub open spec fn same_at<L, C>(a: Map<L, C>, b: Map<L, C>, place: L) -> bool {
    &&& a.contains_key(place) == b.contains_key(place)
    &&& a.contains_key(place) ==> a[place] == b[place]
}

/// Whether a disk becomes another while the driver does what it is asked for: it changes
/// nothing but the file that it is to create, to write to or to remove.
pub open spec fn does<P, L, C>(
    action: ActionView,
    file: Option<Target<P>>,
    place: spec_fn(Target<P>) -> L,
    before: Map<L, C>,
    after: Map<L, C>,
) -> bool {
    match action {
        ActionView::OpenFiles { .. } | ActionView::CopyChunk | ActionView::RemoveAndStop => {
            forall|l: L|
                (file matches Some(t) ==> l != place(t)) ==> #[trigger] same_at(before, after, l)
        },
        _ => before == after,
    }
}

/// Whether an event tells truly which names are taken.
pub open spec fn is_true<P, L, C>(
    job: JobView<P>,
    event: EventView<P>,
    place: spec_fn(Target<P>) -> L,
    disk: Map<L, C>,
) -> bool {
    match event {
        EventView::Probed { taken, .. } => taken == disk.contains_key(
            place(Target::Own { path: job.files[job.next] }),
        ),
        EventView::NameProbed { taken } => job.stage matches StageView::Renaming { file, counter }
            ==> taken == disk.contains_key(place(Target::Named { name: file.numbered(counter) })),
        _ => true,
    }
}

/// Whether the disk was as `disks` tell, at first and after each event.
pub open spec fn happened<P, L, C>(
    begun: TurnView<P>,
    events: Seq<EventView<P>>,
    place: spec_fn(Target<P>) -> L,
    disks: Seq<Map<L, C>>,
) -> bool
    decreases events.len(),
{
    &&& disks.len() == events.len() + 1
    &&& events.len() > 0 ==> {
        let rest = events.drop_last();
        let n = events.len() as int;
        &&& happened(begun, rest, place, disks.drop_last())
        &&& does(asked(begun, rest), created(begun, rest), place, disks[n - 1], disks[n])
        &&& is_true(run(begun.job, rest), events.last(), place, disks[n])
    }
}

/// Whether a file is being copied, or a copy is to be created, written to or removed.
pub open spec fn is_copying(stage: StageView, action: ActionView) -> bool {
    stage is Opening || stage is Copying || action is OpenFiles || action is CopyChunk
        || action is RemoveAndStop
}

/// Unless files are to be overwritten, a job asks for a file to be created only under a
/// name of which it was just told that it is free, and handles one only after that.
pub proof fn lemma_what_is_created<P, L, C>(
    before: JobView<P>,
    event: EventView<P>,
    place: spec_fn(Target<P>) -> L,
    disk: Map<L, C>,
)
    requires
        before.valid(),
        before.accepts(event),
        before.conflict_res != ConflictResolution::Overwrite,
        is_true(before, event, place, disk),
    ensures
        ({
            let turn = before.step(event);
            &&& turn.job.conflict_res == before.conflict_res
            &&& creates(turn) matches Some(file) ==> !disk.contains_key(place(file))
            &&& is_copying(turn.job.stage, turn.action) ==> creates(turn) is Some || before.stage
                is Opening || before.stage is Copying
        }),
{
}

/// What the job asks to be created was not there at first, and what was there stays.
proof fn lemma_kept_so_far<P, L, C>(
    begun: TurnView<P>,
    events: Seq<EventView<P>>,
    place: spec_fn(Target<P>) -> L,
    disks: Seq<Map<L, C>>,
)
    requires
        begins(begun),
        begun.job.conflict_res != ConflictResolution::Overwrite,
        accepted(begun.job, events),
        happened(begun, events, place, disks),
    ensures
        run(begun.job, events).conflict_res == begun.job.conflict_res,
        disks[0].submap_of(disks.last()),
        created(begun, events) matches Some(file) ==> !disks[0].contains_key(place(file)),
        is_copying(run(begun.job, events).stage, asked(begun, events)) ==> created(begun, events)
            is Some,
    decreases events.len(),
{
    if events.len() > 0 {
        let rest = events.drop_last();
        let n = events.len() as int;
        lemma_kept_so_far(begun, rest, place, disks.drop_last());
        job_stays_valid(begun.job, rest);
        lemma_kept(
            asked(begun, rest),
            created(begun, rest),
            place,
            disks[0],
            disks[n - 1],
            disks[n],
        );
        lemma_what_is_created(run(begun.job, rest), events.last(), place, disks[n]);
    }
}

/// What was there at first is there after each event.
proof fn lemma_kept_after_each<P, L, C>(
    begun: TurnView<P>,
    events: Seq<EventView<P>>,
    place: spec_fn(Target<P>) -> L,
    disks: Seq<Map<L, C>>,
    k: int,
)
    requires
        begins(begun),
        begun.job.conflict_res != ConflictResolution::Overwrite,
        accepted(begun.job, events),
        happened(begun, events, place, disks),
        0 <= k < disks.len(),
    ensures
        disks[0].submap_of(disks[k]),
    decreases events.len(),
{
    if k == disks.len() - 1 {
        lemma_kept_so_far(begun, events, place, disks);
    } else {
        lemma_kept_after_each(begun, events.drop_last(), place, disks.drop_last(), k);
    }
}

/// What was there at first stays while the driver does what it is asked for, if what it
/// may change was not there.
proof fn lemma_kept<P, L, C>(
    action: ActionView,
    file: Option<Target<P>>,
    place: spec_fn(Target<P>) -> L,
    first: Map<L, C>,
    before: Map<L, C>,
    after: Map<L, C>,
)
    requires
        first.submap_of(before),
        file matches Some(t) ==> !first.contains_key(place(t)),
        does(action, file, place, before, after),
    ensures
        first.submap_of(after),
{
    assert forall|l: L| #[trigger] first.dom().contains(l) implies after.dom().contains(l)
        && first[l] == after[l] by {
        assert(before.dom().contains(l));
        if before != after {
            assert(same_at(before, after, l));
        }
    }
}

/// Unless files are to be overwritten, every file that was there before an import stays
/// as it was: after each event, and at every moment while the driver does what the job
/// asks for next, to the removal of a copy that was begun.
pub proof fn files_stay_as_they_were<P, L, C>(
    begun: TurnView<P>,
    events: Seq<EventView<P>>,
    place: spec_fn(Target<P>) -> L,
    disks: Seq<Map<L, C>>,
    moment: Map<L, C>,
)
    requires
        begins(begun),
        begun.job.conflict_res != ConflictResolution::Overwrite,
        accepted(begun.job, events),
        happened(begun, events, place, disks),
        does(asked(begun, events), created(begun, events), place, disks.last(), moment),
    ensures
        forall|k: int| 0 <= k < disks.len() ==> disks[0].submap_of(#[trigger] disks[k]),
        disks[0].submap_of(moment),
{
    lemma_kept_so_far(begun, events, place, disks);
    assert forall|k: int| 0 <= k < disks.len() implies disks[0].submap_of(#[trigger] disks[k]) by {
        lemma_kept_after_each(begun, events, place, disks, k);
    }
    lemma_kept(
        asked(begun, events),
        created(begun, events),
        place,
        disks[0],
        disks.last(),
        moment,
    );
}

/// Unless files are to be overwritten, no file that was there before an import is ever
/// created anew, written to or removed.
pub proof fn only_new_files_are_touched<P, L, C>(
    begun: TurnView<P>,
    events: Seq<EventView<P>>,
    place: spec_fn(Target<P>) -> L,
    disks: Seq<Map<L, C>>,
)
    requires
        begins(begun),
        begun.job.conflict_res != ConflictResolution::Overwrite,
        accepted(begun.job, events),
        happened(begun, events, place, disks),
    ensures
        created(begun, events) matches Some(file) ==> !disks[0].contains_key(place(file)),
        asked(begun, events) is OpenFiles || asked(begun, events) is CopyChunk || asked(
            begun,
            events,
        ) is RemoveAndStop ==> created(begun, events) is Some,
{
    lemma_kept_so_far(begun, events, place, disks);
}

} // verus!
