//! What the messages of an import tell, from its first to its last.
use crate::filter::FilterView;
use crate::import_laws::{
    accepted, end_is_reported_last, job_stays_valid, reported, run,
    stopping_is_reported_unless_cancelled,
};
use crate::importer::{has_room, EventView, JobView, ProgressView, StageView, TurnView};
use crate::progress::percent_bits;
use crate::progress_laws::{nothing_is_zero_percent, percent_goes_forward};
use vstd::prelude::*;

verus! {

/// Whether this is how an import begins.
pub open spec fn begins<P>(begun: TurnView<P>) -> bool {
    let job = begun.job;
    begun == JobView::<P>::started(
        job.source_index,
        job.project_label,
        job.camera_label,
        job.filter,
        job.conflict_res,
    )
}

/// All messages of an import so far, from its beginning.
pub open spec fn told<P>(begun: TurnView<P>, events: Seq<EventView<P>>) -> Seq<ProgressView> {
    begun.reports + reported(begun.job, events)
}

/// Whether the files of a job are not being handled yet.
spec fn is_early<P>(job: JobView<P>) -> bool {
    job.stage is Walking || job.stage is CheckingSpace || job.stage is MakingDir
}

/// Whether a message of a job tells its total, and the percentage of its bytes.
spec fn is_sound<P>(message: ProgressView, job: JobView<P>) -> bool {
    &&& message.total_size_bytes == job.total_size
    &&& !message.done ==> message.progress_percent == percent_bits(
        message.copied_size_bytes as nat,
        message.total_size_bytes as nat,
    )
}

/// What holds of the messages of one step.
proof fn lemma_messages_of_step<P>(before: JobView<P>, event: EventView<P>)
    requires
        before.valid(),
        before.accepts(event),
        0 <= before.total_size <= u64::MAX,
        0 <= before.copied_size,
        before.files.len() == 0 ==> before.total_size == 0,
    ensures
        ({
            let turn = before.step(event);
            let now = turn.job;
            &&& 0 <= now.total_size <= u64::MAX
            &&& before.copied_size <= now.copied_size
            &&& now.files.len() == 0 ==> now.total_size == 0
            &&& is_early(now) ==> is_early(before) && turn.reports.len() == 0
            &&& !is_early(before) ==> now.total_size == before.total_size
            &&& forall|i: int|
                0 <= i < turn.reports.len() ==> is_sound(#[trigger] turn.reports[i], now)
                    && before.copied_size <= turn.reports[i].copied_size_bytes <= now.copied_size
            &&& forall|i: int, j: int|
                0 <= i <= j < turn.reports.len() ==> (
                #[trigger] turn.reports[i]).copied_size_bytes <= (
                #[trigger] turn.reports[j]).copied_size_bytes
        }),
{
    nothing_is_zero_percent(before.total_size as nat);
}

/// What holds of the messages so far.
proof fn lemma_messages_so_far<P>(job: JobView<P>, events: Seq<EventView<P>>)
    requires
        job.valid(),
        job.stage is Walking,
        job.files.len() == 0,
        job.total_size == 0,
        accepted(job, events),
    ensures
        ({
            let now = run(job, events);
            let said = reported(job, events);
            &&& 0 <= now.total_size <= u64::MAX
            &&& 0 <= now.copied_size
            &&& now.files.len() == 0 ==> now.total_size == 0
            &&& is_early(now) ==> said.len() == 0
            &&& forall|i: int|
                0 <= i < said.len() ==> is_sound(#[trigger] said[i], now) && 0
                    <= said[i].copied_size_bytes <= now.copied_size
            &&& forall|i: int, j: int|
                0 <= i <= j < said.len() ==> (#[trigger] said[i]).copied_size_bytes <= (
                #[trigger] said[j]).copied_size_bytes
        }),
    decreases events.len(),
{
    if events.len() > 0 {
        let rest = events.drop_last();
        lemma_messages_so_far(job, rest);
        job_stays_valid(job, rest);
        let before = run(job, rest);
        lemma_messages_of_step(before, events.last());
        let earlier = reported(job, rest);
        let turn = before.step(events.last());
        let said = reported(job, events);
        assert(said == earlier + turn.reports);
        assert forall|i: int| 0 <= i < said.len() implies is_sound(#[trigger] said[i], turn.job)
            && 0 <= said[i].copied_size_bytes <= turn.job.copied_size by {
            if i < earlier.len() {
                assert(said[i] == earlier[i]);
            } else {
                assert(said[i] == turn.reports[i - earlier.len()]);
            }
        }
        assert forall|i: int, j: int| 0 <= i <= j < said.len() implies (
        #[trigger] said[i]).copied_size_bytes <= (#[trigger] said[j]).copied_size_bytes by {
            if j < earlier.len() {
                assert(said[i] == earlier[i] && said[j] == earlier[j]);
            } else {
                assert(said[j] == turn.reports[j - earlier.len()]);
                if i < earlier.len() {
                    assert(said[i] == earlier[i]);
                } else {
                    assert(said[i] == turn.reports[i - earlier.len()]);
                }
            }
        }
    }
}

/// The bytes that messages tell as copied never decrease.
pub proof fn copied_never_decreases<P>(
    begun: TurnView<P>,
    events: Seq<EventView<P>>,
    i: int,
    j: int,
)
    requires
        begins(begun),
        accepted(begun.job, events),
        0 <= i <= j < told(begun, events).len(),
    ensures
        0 <= told(begun, events)[i].copied_size_bytes
            <= told(begun, events)[j].copied_size_bytes,
{
    lemma_messages_so_far(begun.job, events);
    let said = reported(begun.job, events);
    assert(begun.reports.len() == 1);
    if i > 0 {
        assert(told(begun, events)[i] == said[i - 1]);
    }
    if j > 0 {
        assert(told(begun, events)[j] == said[j - 1]);
    }
}

/// From the second message on, each tells the total of the import.
pub proof fn total_stays<P>(begun: TurnView<P>, events: Seq<EventView<P>>, i: int)
    requires
        begins(begun),
        accepted(begun.job, events),
        1 <= i < told(begun, events).len(),
    ensures
        told(begun, events)[i].total_size_bytes == run(begun.job, events).total_size,
{
    lemma_messages_so_far(begun.job, events);
    assert(told(begun, events)[i] == reported(begun.job, events)[i - 1]);
}

/// The percentage of a message that is not the last is that of its bytes and its total.
pub proof fn percent_fits_the_sizes<P>(begun: TurnView<P>, events: Seq<EventView<P>>, i: int)
    requires
        begins(begun),
        accepted(begun.job, events),
        0 <= i < told(begun, events).len(),
        !told(begun, events)[i].done,
    ensures
        told(begun, events)[i].progress_percent == percent_bits(
            told(begun, events)[i].copied_size_bytes as nat,
            told(begun, events)[i].total_size_bytes as nat,
        ),
{
    lemma_messages_so_far(begun.job, events);
    nothing_is_zero_percent(0);
    if i > 0 {
        assert(told(begun, events)[i] == reported(begun.job, events)[i - 1]);
    }
}

/// Until an import reports its end, its messages never tell less than those before them.
pub proof fn progress_goes_forward<P>(
    begun: TurnView<P>,
    events: Seq<EventView<P>>,
    i: int,
    j: int,
)
    requires
        begins(begun),
        accepted(begun.job, events),
        0 <= i <= j < told(begun, events).len(),
        !told(begun, events)[j].done,
    ensures
        told(begun, events)[i].progress_percent <= told(begun, events)[j].progress_percent,
{
    let all = told(begun, events);
    let said = reported(begun.job, events);
    lemma_messages_so_far(begun.job, events);
    copied_never_decreases(begun, events, i, j);
    percent_fits_the_sizes(begun, events, j);
    assert(begun.reports.len() == 1);
    if j > 0 {
        assert(all[j] == said[j - 1]);
    }
    if i > 0 {
        assert(all[i] == said[i - 1]);
        if all[i].done {
            end_is_reported_last(begun.job, events, i - 1);
        }
    }
    percent_fits_the_sizes(begun, events, i);
    nothing_is_zero_percent(all[i].total_size_bytes as nat);
    nothing_is_zero_percent(all[j].total_size_bytes as nat);
    percent_goes_forward(
        all[i].copied_size_bytes as nat,
        all[j].copied_size_bytes as nat,
        all[j].total_size_bytes as nat,
    );
}

// ---------------------------------------------------------------------------
// Files that do not change
// ---------------------------------------------------------------------------

/// What has been learnt of the files: the lengths of those to copy, as the walk found
/// them, and the bytes read since one was opened.
pub struct Ledger {
    pub lens: Seq<nat>,
    pub read: nat,
}

/// What is known after an event.
pub open spec fn learnt<P>(filter: FilterView, before: Ledger, event: EventView<P>) -> Ledger {
    match event {
        EventView::Walked { entry, .. } => if filter.selects(entry) {
            Ledger { lens: before.lens.push(entry.metadata->Some_0.len), ..before }
        } else {
            before
        },
        EventView::Opened { .. } => Ledger { read: 0, ..before },
        EventView::ChunkRead { bytes, .. } => Ledger { read: before.read + bytes as nat, ..before },
        _ => before,
    }
}

/// What is learnt from events.
pub open spec fn ledger<P>(filter: FilterView, events: Seq<EventView<P>>) -> Ledger
    decreases events.len(),
{
    if events.len() == 0 {
        Ledger { lens: seq![], read: 0 }
    } else {
        learnt(filter, ledger(filter, events.drop_last()), events.last())
    }
}

/// Whether an event goes with a file of `len` bytes, of which `read` are read: it has
/// that length when it is measured, and ends there and not before when it is read.
pub open spec fn fits<P>(event: EventView<P>, len: nat, read: nat) -> bool {
    match event {
        EventView::Measured { len: Some(n) } => n == len,
        EventView::ChunkRead { bytes, .. } => read + bytes <= len && (bytes == 0 ==> read == len),
        _ => true,
    }
}

/// Whether files have, when they are measured or read, the lengths that the walk found.
pub open spec fn files_are_unchanged<P>(job: JobView<P>, events: Seq<EventView<P>>) -> bool
    decreases events.len(),
{
    events.len() == 0 || {
        let rest = events.drop_last();
        let known = ledger(job.filter, rest);
        &&& files_are_unchanged(job, rest)
        &&& fits(events.last(), known.lens[run(job, rest).next], known.read)
    }
}

/// Whether what was asked of the file system succeeded, and the user did not stop it.
pub open spec fn succeeds<P>(event: EventView<P>) -> bool {
    match event {
        EventView::Cancelled | EventView::DirFailed { .. } | EventView::ReadFailed => false,
        EventView::Measured { len } => len is Some,
        EventView::Opened { both } => both,
        EventView::ChunkRead { written, .. } => written,
        _ => true,
    }
}

/// Whether an event succeeds, and does not tell that there is too little room.
pub open spec fn goes_well<P>(job: JobView<P>, event: EventView<P>) -> bool {
    succeeds(event) && (event matches EventView::FreeSpace { free: Some(free) } ==> has_room(
        job.total_size,
        free as int,
    ))
}

/// Whether all went well, and the free space, where it could be told, sufficed for
/// `total` bytes.
pub open spec fn all_succeed<P>(events: Seq<EventView<P>>, total: int) -> bool {
    forall|i: int|
        0 <= i < events.len() ==> succeeds(#[trigger] events[i]) && (
        events[i] matches EventView::FreeSpace { free: Some(free) } ==> has_room(
            total,
            free as int,
        ))
}

/// The sum of lengths.
pub open spec fn sum(lens: Seq<nat>) -> nat
    decreases lens.len(),
{
    if lens.len() == 0 {
        0
    } else {
        sum(lens.drop_last()) + lens.last()
    }
}

/// The first lengths sum up to no more than all, and one more adds itself.
proof fn lemma_sum_of_first(lens: Seq<nat>, k: int)
    requires
        0 <= k <= lens.len(),
    ensures
        sum(lens.take(k)) <= sum(lens),
        k < lens.len() ==> sum(lens.take(k + 1)) == sum(lens.take(k)) + lens[k],
        k < lens.len() ==> sum(lens.take(k)) + lens[k] <= sum(lens),
        k == lens.len() ==> sum(lens.take(k)) == sum(lens),
    decreases lens.len() - k,
{
    if k == lens.len() {
        assert(lens.take(k) =~= lens);
    } else {
        assert(lens.take(k + 1).drop_last() =~= lens.take(k));
        lemma_sum_of_first(lens, k + 1);
    }
}

/// How the bytes copied stand to the lengths of the files: they are at most those of
/// the files handled and of what is read of one, and just those where all went well.
spec fn balanced<P>(now: JobView<P>, known: Ledger, well: bool) -> bool {
    let handled = sum(known.lens.take(now.next));
    &&& known.lens.len() == now.files.len()
    &&& now.total_size == sum(known.lens)
    &&& match now.stage {
        StageView::Walking | StageView::CheckingSpace | StageView::MakingDir => true,
        StageView::Copying { .. } => {
            &&& known.read <= known.lens[now.next]
            &&& now.copied_size <= handled + known.read
            &&& well ==> now.copied_size == handled + known.read
        },
        StageView::Stopped => {
            &&& now.copied_size <= now.total_size
            &&& well ==> now.copied_size == now.total_size
        },
        _ => {
            &&& now.copied_size <= handled
            &&& well ==> now.copied_size == handled
        },
    }
}

/// An event keeps the balance.
proof fn lemma_balance<P>(before: JobView<P>, known: Ledger, event: EventView<P>, well: bool)
    requires
        before.valid(),
        before.accepts(event),
        balanced(before, known, well),
        fits(event, known.lens[before.next], known.read),
    ensures
        balanced(
            before.step(event).job,
            learnt(before.filter, known, event),
            well && goes_well(before, event),
        ),
{
    let now = before.step(event).job;
    let next = learnt(before.filter, known, event);
    assert(sum(known.lens.take(0)) == 0);
    match before.stage {
        StageView::Walking => {
            if event is Walked && before.filter.selects(event->entry) {
                assert(next.lens.drop_last() =~= known.lens);
            }
        },
        StageView::CheckingSpace | StageView::MakingDir => {
            lemma_sum_of_first(known.lens, 0);
        },
        _ => {
            lemma_sum_of_first(known.lens, before.next);
            lemma_sum_of_first(known.lens, before.next + 1);
        },
    }
}

/// The balance holds all along.
proof fn lemma_ledger<P>(job: JobView<P>, events: Seq<EventView<P>>)
    requires
        job.valid(),
        job.stage is Walking,
        job.files.len() == 0,
        job.total_size == 0,
        accepted(job, events),
        files_are_unchanged(job, events),
    ensures
        run(job, events).filter == job.filter,
        balanced(
            run(job, events),
            ledger(job.filter, events),
            all_succeed(events, run(job, events).total_size),
        ),
    decreases events.len(),
{
    if events.len() > 0 {
        let rest = events.drop_last();
        lemma_ledger(job, rest);
        job_stays_valid(job, rest);
        let before = run(job, rest);
        let now = run(job, events);
        lemma_balance(
            before,
            ledger(job.filter, rest),
            events.last(),
            all_succeed(rest, before.total_size),
        );
        if all_succeed(events, now.total_size) {
            lemma_success_before(job, events);
        }
    }
}

/// Where all went well, it did so before the last event, and with that.
pub proof fn lemma_success_before<P>(job: JobView<P>, events: Seq<EventView<P>>)
    requires
        accepted(job, events),
        events.len() > 0,
        all_succeed(events, run(job, events).total_size),
    ensures
        all_succeed(events.drop_last(), run(job, events.drop_last()).total_size),
        goes_well(run(job, events.drop_last()), events.last()),
{
    let rest = events.drop_last();
    let before = run(job, rest);
    assert(succeeds(events[events.len() - 1]));
    assert forall|i: int| 0 <= i < rest.len() implies succeeds(#[trigger] rest[i]) && (
    rest[i] matches EventView::FreeSpace { free: Some(free) } ==> has_room(
        before.total_size,
        free as int,
    )) by {
        assert(rest[i] == events[i]);
        if rest[i] is FreeSpace {
            lemma_space_is_asked_after_the_walk(job, rest, i);
        }
    }
}

/// Once the free space was asked for, the walk is over.
proof fn lemma_space_is_asked_after_the_walk<P>(
    job: JobView<P>,
    events: Seq<EventView<P>>,
    i: int,
)
    requires
        accepted(job, events),
        0 <= i < events.len(),
        events[i] is FreeSpace,
    ensures
        !(run(job, events).stage is Walking),
    decreases events.len(),
{
    let rest = events.drop_last();
    if i < rest.len() {
        assert(rest[i] == events[i]);
        lemma_space_is_asked_after_the_walk(job, rest, i);
    }
}

/// Of files that do not change, no message tells more bytes copied than there are.
pub proof fn copied_stays_within_total<P>(begun: TurnView<P>, events: Seq<EventView<P>>, i: int)
    requires
        begins(begun),
        accepted(begun.job, events),
        files_are_unchanged(begun.job, events),
        0 <= i < told(begun, events).len(),
    ensures
        told(begun, events)[i].copied_size_bytes <= run(begun.job, events).total_size,
{
    let now = run(begun.job, events);
    let known = ledger(begun.job.filter, events);
    lemma_messages_so_far(begun.job, events);
    lemma_ledger(begun.job, events);
    job_stays_valid(begun.job, events);
    if 0 <= now.next <= known.lens.len() {
        lemma_sum_of_first(known.lens, now.next);
    }
    if i > 0 {
        assert(told(begun, events)[i] == reported(begun.job, events)[i - 1]);
    }
}

/// Where all goes well with files that do not change, the last message tells that all
/// bytes are copied.
pub proof fn all_bytes_are_copied<P>(begun: TurnView<P>, events: Seq<EventView<P>>)
    requires
        begins(begun),
        accepted(begun.job, events),
        files_are_unchanged(begun.job, events),
        all_succeed(events, run(begun.job, events).total_size),
        run(begun.job, events).stage is Stopped,
    ensures
        ({
            let last = told(begun, events).last();
            &&& last.done
            &&& last.copied_size_bytes == last.total_size_bytes
            &&& last.total_size_bytes == run(begun.job, events).total_size
        }),
{
    let job = begun.job;
    lemma_messages_so_far(job, events);
    lemma_ledger(job, events);
    stopping_is_reported_unless_cancelled(job, events);
    assert(succeeds(events[events.len() - 1]));
    let said = reported(job, events);
    assert(told(begun, events).last() == said.last());
    let before = run(job, events.drop_last());
    let turn = before.step(events.last());
    job_stays_valid(job, events.drop_last());
    assert(said.last() == turn.reports.last());
}

} // verus!
