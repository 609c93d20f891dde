//! What holds of every import.
use crate::filter::{EntryView, FilterView};
use crate::importer::{
    lemma_step_valid, ActionView, ConflictResolution, EventView, FileNameView, JobView,
    ProgressView, StageView, RESERVE,
};
use crate::text::{decimal, lemma_decimal_injective};
use vstd::prelude::*;

verus! {

/// The job after events.
pub open spec fn run<P>(job: JobView<P>, events: Seq<EventView<P>>) -> JobView<P>
    decreases events.len(),
{
    if events.len() == 0 {
        job
    } else {
        run(job, events.drop_last()).step(events.last()).job
    }
}

/// All that the job reports over events.
pub open spec fn reported<P>(job: JobView<P>, events: Seq<EventView<P>>) -> Seq<ProgressView>
    decreases events.len(),
{
    if events.len() == 0 {
        seq![]
    } else {
        reported(job, events.drop_last()) + run(job, events.drop_last()).step(events.last()).reports
    }
}

/// Whether each event answers what the job has asked for.
pub open spec fn accepted<P>(job: JobView<P>, events: Seq<EventView<P>>) -> bool
    decreases events.len(),
{
    events.len() == 0 || {
        &&& accepted(job, events.drop_last())
        &&& run(job, events.drop_last()).accepts(events.last())
    }
}

/// A job stays valid over events.
pub proof fn job_stays_valid<P>(job: JobView<P>, events: Seq<EventView<P>>)
    requires
        job.valid(),
        accepted(job, events),
    ensures
        run(job, events).valid(),
    decreases events.len(),
{
    if events.len() > 0 {
        job_stays_valid(job, events.drop_last());
        lemma_step_valid(run(job, events.drop_last()), events.last());
    }
}

// ---------------------------------------------------------------------------
// Which files
// ---------------------------------------------------------------------------

/// The paths of the entries that a filter selects, in the order of the walk.
pub open spec fn selected_paths<P>(filter: FilterView, walk: Seq<(P, EntryView)>) -> Seq<P>
    decreases walk.len(),
{
    if walk.len() == 0 {
        seq![]
    } else {
        let before = selected_paths(filter, walk.drop_last());
        if filter.selects(walk.last().1) {
            before.push(walk.last().0)
        } else {
            before
        }
    }
}

/// The bytes of the entries that a filter selects.
pub open spec fn selected_size<P>(filter: FilterView, walk: Seq<(P, EntryView)>) -> nat
    decreases walk.len(),
{
    if walk.len() == 0 {
        0
    } else {
        selected_size(filter, walk.drop_last()) + if filter.selects(walk.last().1) {
            walk.last().1.metadata->Some_0.len
        } else {
            0
        }
    }
}

/// The events of a walk.
pub open spec fn walked<P>(walk: Seq<(P, EntryView)>) -> Seq<EventView<P>> {
    walk.map_values(|w: (P, EntryView)| EventView::Walked { path: w.0, entry: w.1 })
}

/// The job copies exactly the files that its filter selects, in the order of the walk,
/// its total is the sum of their lengths, and the walk reports nothing.
pub proof fn walk_finds_selected_files<P>(job: JobView<P>, walk: Seq<(P, EntryView)>)
    requires
        job.stage == StageView::Walking,
    ensures
        run(job, walked(walk)) == (JobView {
            files: job.files + selected_paths(job.filter, walk),
            total_size: job.total_size + selected_size(job.filter, walk),
            ..job
        }),
        reported(job, walked(walk)) == Seq::<ProgressView>::empty(),
    decreases walk.len(),
{
    if walk.len() == 0 {
        assert(job.files + selected_paths(job.filter, walk) =~= job.files);
    } else {
        walk_finds_selected_files(job, walk.drop_last());
        assert(walked(walk).drop_last() =~= walked(walk.drop_last()));
        let before = run(job, walked(walk.drop_last()));
        assert(run(job, walked(walk)).files =~= job.files + selected_paths(job.filter, walk));
        assert(reported(job, walked(walk)) =~= seq![]);
    }
}

// ---------------------------------------------------------------------------
// How it ends
// ---------------------------------------------------------------------------

/// A job that has stopped takes no event.
pub proof fn stopped_takes_nothing<P>(job: JobView<P>, event: EventView<P>)
    requires
        job.stage is Stopped,
    ensures
        !job.accepts(event),
{
}

/// A job reports its end at most once, as the last of its messages, and stops with it.
pub proof fn end_is_reported_last<P>(job: JobView<P>, events: Seq<EventView<P>>, i: int)
    requires
        job.valid(),
        accepted(job, events),
        0 <= i < reported(job, events).len(),
        reported(job, events)[i].done,
    ensures
        i == reported(job, events).len() - 1,
        run(job, events).stage is Stopped,
    decreases events.len(),
{
    let before = run(job, events.drop_last());
    let earlier = reported(job, events.drop_last());
    if i < earlier.len() {
        end_is_reported_last(job, events.drop_last(), i);
        stopped_takes_nothing(before, events.last());
    } else {
        let turn = before.step(events.last());
        job_stays_valid(job, events.drop_last());
        assert(reported(job, events)[i] == turn.reports[i - earlier.len()]);
    }
}

/// A job that has stopped has either reported its end, or it was cancelled and has not.
pub proof fn stopping_is_reported_unless_cancelled<P>(job: JobView<P>, events: Seq<EventView<P>>)
    requires
        job.valid(),
        !(job.stage is Stopped),
        accepted(job, events),
        run(job, events).stage is Stopped,
    ensures
        events.len() > 0,
        if events.last() is Cancelled {
            forall|i: int|
                0 <= i < reported(job, events).len() ==> !(#[trigger] reported(job, events)[i]).done
        } else {
            reported(job, events).len() > 0 && reported(job, events).last().done
        },
{
    let before = run(job, events.drop_last());
    let turn = before.step(events.last());
    job_stays_valid(job, events.drop_last());
    if events.last() is Cancelled {
        assert(reported(job, events) =~= reported(job, events.drop_last()));
        assert forall|i: int| 0 <= i < reported(job, events).len() implies !(
        #[trigger] reported(job, events)[i]).done by {
            if reported(job, events)[i].done {
                end_is_reported_last(job, events.drop_last(), i);
                stopped_takes_nothing(before, events.last());
            }
        }
    } else {
        assert(turn.reports.last().done);
    }
}

/// A cancelled job says nothing more, stops, and has a copy that was begun removed.
pub proof fn cancelling_is_silent<P>(job: JobView<P>)
    ensures
        job.step(EventView::Cancelled).reports == Seq::<ProgressView>::empty(),
        job.step(EventView::Cancelled).job.stage is Stopped,
        job.step(EventView::Cancelled).action is RemoveAndStop <==> job.stage is Copying,
        !(job.stage is Copying) ==> job.step(EventView::Cancelled).action is Stop,
{
}

/// Where the files are copied, the job ends of itself only after the last file.
pub proof fn ends_after_last_file<P>(job: JobView<P>, event: EventView<P>)
    requires
        job.valid(),
        job.accepts(event),
        !(event is Cancelled),
        job.stage is Starting || job.stage is Measuring || job.stage is Renaming
            || job.stage is Opening || job.stage is Copying,
    ensures
        job.step(event).job.stage is Stopped <==> job.step(event).job.next == job.files.len(),
        job.next <= job.step(event).job.next <= job.next + 1,
        job.step(event).job.files == job.files,
{
}

/// Every message names the source, and after the walk tells its total, but for the
/// one that says that there is no file.
pub proof fn messages_name_the_source<P>(job: JobView<P>, event: EventView<P>, i: int)
    requires
        0 <= i < job.step(event).reports.len(),
    ensures
        job.step(event).reports[i].source_index == job.source_index,
        event is WalkEnded || job.step(event).reports[i].total_size_bytes == job.total_size,
{
}

// ---------------------------------------------------------------------------
// What is never overwritten
// ---------------------------------------------------------------------------

/// Only a name that was found free is opened for writing, unless the user wants files
/// overwritten.
pub proof fn taken_names_stay<P>(job: JobView<P>, event: EventView<P>)
    requires
        job.valid(),
        job.accepts(event),
        job.step(event).action is OpenFiles,
    ensures
        job.conflict_res == ConflictResolution::Overwrite || (event matches EventView::Probed {
            taken,
            ..
        } && !taken) || (event matches EventView::NameProbed { taken } && !taken),
        job.step(event).action->OpenFiles_index == job.next,
{
}

/// The numbered name that is opened is the one that was asked for.
pub proof fn probed_name_is_opened<P>(job: JobView<P>, event: EventView<P>)
    requires
        job.valid(),
        job.accepts(event),
        job.step(event).action is ProbeName,
    ensures
        ({
            let asked = job.step(event);
            let free = EventView::NameProbed { taken: false };
            &&& asked.job.accepts(free)
            &&& asked.job.step(free).action == (ActionView::OpenFiles {
                index: job.next,
                target: Some(asked.action->ProbeName_name),
            })
        }),
{
}

/// A file that is skipped is not opened.
pub proof fn skipped_files_are_not_opened<P>(
    job: JobView<P>,
    name: FileNameView,
    len: Option<u64>,
)
    requires
        job.valid(),
        job.stage is Starting,
        job.conflict_res == ConflictResolution::Skip,
    ensures
        ({
            let skipping = job.step(EventView::Probed { name, taken: true });
            &&& skipping.action == (ActionView::MeasureFile { index: job.next })
            &&& !(skipping.job.step(EventView::Measured { len }).action is OpenFiles)
        }),
{
}

/// Numbered names differ, so that a directory cannot have taken all of them.
pub proof fn numbered_names_differ(name: FileNameView, a: int, b: int)
    requires
        0 <= a,
        0 <= b,
        a != b,
    ensures
        name.numbered(a) != name.numbered(b),
{
    let x = decimal(a as nat);
    let y = decimal(b as nat);
    let head = name.stem + "_"@;
    if x == y {
        lemma_decimal_injective(a as nat, b as nat);
    }
    if name.numbered(a) == name.numbered(b) {
        let n = head.len() as int;
        let tail = if name.extension.len() == 0 {
            seq![]
        } else {
            "."@ + name.extension
        };
        assert(name.numbered(a) =~= head + x + tail);
        assert(name.numbered(b) =~= head + y + tail);
        assert(x.len() == y.len());
        assert(x =~= name.numbered(a).subrange(n, n + x.len()));
        assert(y =~= name.numbered(b).subrange(n, n + y.len()));
    }
}

// ---------------------------------------------------------------------------
// Sums
// ---------------------------------------------------------------------------

/// The bytes that an event adds to what is copied or skipped.
pub open spec fn gain<P>(event: EventView<P>) -> int {
    match event {
        EventView::Measured { len: Some(n) } => n as int,
        EventView::ChunkRead { bytes, written: true, .. } => bytes as int,
        _ => 0,
    }
}

/// The bytes that events add.
pub open spec fn gains<P>(events: Seq<EventView<P>>) -> int
    decreases events.len(),
{
    if events.len() == 0 {
        0
    } else {
        gains(events.drop_last()) + gain(events.last())
    }
}

/// What a job counts as copied is what was written, and what was skipped.
pub proof fn copied_is_the_sum<P>(job: JobView<P>, events: Seq<EventView<P>>)
    requires
        accepted(job, events),
    ensures
        run(job, events).copied_size == job.copied_size + gains(events),
    decreases events.len(),
{
    if events.len() > 0 {
        copied_is_the_sum(job, events.drop_last());
    }
}

/// A job only goes on where its files fit beside the reserve, if the free space can be
/// told at all.
pub proof fn goes_on_only_with_room<P>(job: JobView<P>, free: u64)
    requires
        job.total_size >= 0,
    ensures
        ({
            let turn = job.step(EventView::FreeSpace { free: Some(free) });
            if job.total_size == 0 || job.total_size + RESERVE <= free {
                turn.job.stage is MakingDir && turn.reports == Seq::<ProgressView>::empty()
            } else {
                turn.job.stage is Stopped && turn.reports.len() == 1 && turn.reports[0].done
            }
        }),
        job.step(EventView::FreeSpace { free: None }).job.stage is MakingDir,
{
}

} // verus!
