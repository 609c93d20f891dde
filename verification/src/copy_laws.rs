//! What lies at the destination after an import: whole copies of the files.
use crate::disk_laws::{
    asked, created, creates, does, happened, is_copying, is_true, lemma_what_is_created,
    only_new_files_are_touched, same_at, Target,
};
use crate::import_laws::{accepted, job_stays_valid, run};
use crate::importer::{ActionView, ConflictResolution, EventView, JobView, TurnView};
use crate::message_laws::{
    all_succeed, begins, goes_well, learnt, ledger, lemma_success_before, Ledger,
};
use vstd::prelude::*;

verus! {

/// A file that was to be created: which of the files it is a copy of, where it is to
/// lie, and whether that file was read to its end.
pub struct Creation<P> {
    pub index: int,
    pub target: Target<P>,
    pub whole: bool,
}

/// The creations after a step.
pub open spec fn next_creations<P>(
    made: Seq<Creation<P>>,
    event: EventView<P>,
    turn: TurnView<P>,
) -> Seq<Creation<P>> {
    let ended = if event matches EventView::ChunkRead { bytes, .. } && bytes == 0 {
        made.update(made.len() - 1, Creation { whole: true, ..made.last() })
    } else {
        made
    };
    match creates(turn) {
        Some(target) => ended.push(Creation { index: turn.job.next, target, whole: false }),
        None => ended,
    }
}

/// All files that were to be created, in order.
pub open spec fn creations<P>(begun: TurnView<P>, events: Seq<EventView<P>>) -> Seq<Creation<P>>
    decreases events.len(),
{
    if events.len() == 0 {
        seq![]
    } else {
        let rest = events.drop_last();
        next_creations(
            creations(begun, rest),
            events.last(),
            run(begun.job, rest).step(events.last()),
        )
    }
}

/// Whether bytes move as an event tells. A file that was created is empty; a chunk that
/// was read is what follows in the file, of which `read` bytes are read, and goes behind
/// what was written; the file has ended where nothing follows. What a failed write leaves
/// is not said.
pub open spec fn moves<P, L>(
    job: JobView<P>,
    read: nat,
    event: EventView<P>,
    to: L,
    source: spec_fn(P) -> Seq<u8>,
    before: Map<L, Seq<u8>>,
    after: Map<L, Seq<u8>>,
) -> bool {
    let data = source(job.files[job.next]);
    match event {
        EventView::Opened { both } => both ==> after.contains_key(to) && after[to] == Seq::<
            u8,
        >::empty(),
        EventView::ChunkRead { bytes, written, .. } => {
            &&& read + bytes <= data.len()
            &&& bytes == 0 ==> read == data.len() && same_at(before, after, to)
            &&& bytes > 0 && written ==> after.contains_key(to) && after[to] == before[to]
                + data.subrange(read as int, read + bytes)
        },
        _ => true,
    }
}

/// Whether the bytes of the files, which do not change, moved as the events tell.
pub open spec fn bytes_moved<P, L>(
    begun: TurnView<P>,
    events: Seq<EventView<P>>,
    place: spec_fn(Target<P>) -> L,
    source: spec_fn(P) -> Seq<u8>,
    disks: Seq<Map<L, Seq<u8>>>,
) -> bool
    decreases events.len(),
{
    events.len() > 0 ==> {
        let rest = events.drop_last();
        let n = events.len() as int;
        &&& bytes_moved(begun, rest, place, source, disks.drop_last())
        &&& created(begun, rest) matches Some(file) ==> moves(
            run(begun.job, rest),
            ledger(begun.job.filter, rest).read,
            events.last(),
            place(file),
            source,
            disks[n - 1],
            disks[n],
        )
    }
}

/// Whether a creation was read to its end, and nothing was created in its place later.
pub open spec fn lasts<P, L>(
    made: Seq<Creation<P>>,
    place: spec_fn(Target<P>) -> L,
    k: int,
) -> bool {
    &&& 0 <= k < made.len()
    &&& made[k].whole
    &&& forall|j: int|
        k < j < made.len() ==> place((#[trigger] made[j]).target) != place(made[k].target)
}

/// Whether a disk has certain contents at a place.
pub open spec fn holds<L>(disk: Map<L, Seq<u8>>, place: L, data: Seq<u8>) -> bool {
    disk.contains_key(place) && disk[place] == data
}

// ---------------------------------------------------------------------------
// Step by step
// ---------------------------------------------------------------------------

/// How the creations stand to what the job does.
spec fn in_step<P>(job: JobView<P>, action: ActionView, made: Seq<Creation<P>>) -> bool {
    &&& forall|k: int|
        0 <= k < made.len() ==> 0 <= (#[trigger] made[k]).index < job.files.len() && made[k].index
            <= job.next
    &&& job.stage is Walking ==> made.len() == 0
    &&& action is OpenFiles <==> job.stage is Opening
    &&& action is CopyChunk <==> job.stage is Copying
    &&& action is RemoveAndStop ==> job.stage is Stopped
    &&& is_copying(job.stage, action) ==> made.len() > 0 && !made.last().whole
        && made.last().index == job.next
}

/// How the disk stands to the creations.
spec fn in_place<P, L>(
    job: JobView<P>,
    made: Seq<Creation<P>>,
    read: nat,
    place: spec_fn(Target<P>) -> L,
    source: spec_fn(P) -> Seq<u8>,
    disk: Map<L, Seq<u8>>,
) -> bool {
    &&& job.stage is Copying ==> {
        let data = source(job.files[job.next]);
        read <= data.len() && holds(disk, place(made.last().target), data.take(read as int))
    }
    &&& forall|k: int| #[trigger]
        lasts(made, place, k) ==> holds(
            disk,
            place(made[k].target),
            source(job.files[made[k].index]),
        )
}

/// A step keeps the creations in step.
proof fn lemma_in_step<P>(
    before: JobView<P>,
    action: ActionView,
    event: EventView<P>,
    made: Seq<Creation<P>>,
)
    requires
        before.valid(),
        before.accepts(event),
        in_step(before, action, made),
    ensures
        ({
            let turn = before.step(event);
            in_step(turn.job, turn.action, next_creations(made, event, turn))
        }),
{
    let turn = before.step(event);
    let more = next_creations(made, event, turn);
    assert(before.stage is Walking || turn.job.files == before.files);
    assert(creates(turn) is Some <==> turn.action is OpenFiles);
    assert forall|k: int| 0 <= k < more.len() implies 0 <= (#[trigger] more[k]).index
        < turn.job.files.len() && more[k].index <= turn.job.next by {
        if k < made.len() {
            assert(more[k].index == made[k].index);
        }
    }
}

/// What lasts after a step lasted before it, or is the file that has just ended.
proof fn lemma_lasts<P, L>(
    made: Seq<Creation<P>>,
    event: EventView<P>,
    turn: TurnView<P>,
    place: spec_fn(Target<P>) -> L,
    k: int,
)
    requires
        event is ChunkRead ==> made.len() > 0,
        lasts(next_creations(made, event, turn), place, k),
    ensures
        k < made.len(),
        next_creations(made, event, turn)[k].target == made[k].target,
        next_creations(made, event, turn)[k].index == made[k].index,
        lasts(made, place, k) || (k == made.len() - 1 && event is ChunkRead && event->bytes == 0),
{
    let more = next_creations(made, event, turn);
    if lasts(more, place, k) && made[k].whole {
        assert forall|j: int| k < j < made.len() implies place((#[trigger] made[j]).target)
            != place(made[k].target) by {
            assert(more[j].target == made[j].target);
        }
    }
}

/// A step keeps the disk as the creations say.
proof fn lemma_in_place<P, L>(
    before: JobView<P>,
    action: ActionView,
    event: EventView<P>,
    made: Seq<Creation<P>>,
    known: Ledger,
    place: spec_fn(Target<P>) -> L,
    source: spec_fn(P) -> Seq<u8>,
    old_disk: Map<L, Seq<u8>>,
    new_disk: Map<L, Seq<u8>>,
)
    requires
        before.valid(),
        before.accepts(event),
        in_step(before, action, made),
        in_place(before, made, known.read, place, source, old_disk),
        does(
            action,
            if made.len() > 0 {
                Some(made.last().target)
            } else {
                None
            },
            place,
            old_disk,
            new_disk,
        ),
        made.len() > 0 ==> moves(
            before,
            known.read,
            event,
            place(made.last().target),
            source,
            old_disk,
            new_disk,
        ),
    ensures
        ({
            let turn = before.step(event);
            in_place(
                turn.job,
                next_creations(made, event, turn),
                learnt(before.filter, known, event).read,
                place,
                source,
                new_disk,
            )
        }),
{
    let turn = before.step(event);
    let more = next_creations(made, event, turn);
    let read = learnt(before.filter, known, event).read;
    let data = source(before.files[before.next]);
    let to = place(made.last().target);
    assert(before.stage is Walking || turn.job.files == before.files);
    if turn.job.stage is Copying {
        assert(more == made);
        if before.stage is Opening {
            assert(data.take(0) =~= seq![]);
        } else {
            assert(data.take(known.read as int) + data.subrange(known.read as int, read as int)
                =~= data.take(read as int));
        }
    }
    assert forall|k: int| #[trigger] lasts(more, place, k) implies holds(
        new_disk,
        place(more[k].target),
        source(turn.job.files[more[k].index]),
    ) by {
        lemma_lasts(made, event, turn, place, k);
        if lasts(made, place, k) {
            if is_copying(before.stage, action) {
                assert(k < made.len() - 1);
                assert(place(made[made.len() - 1].target) != place(made[k].target));
                assert(same_at(old_disk, new_disk, place(made[k].target)));
            } else {
                assert(old_disk == new_disk);
            }
        } else {
            assert(before.stage is Copying);
            assert(data.take(known.read as int) =~= data);
        }
    }
}

/// The last creation is the file that the job asked last to be created.
proof fn lemma_last_creation<P>(begun: TurnView<P>, events: Seq<EventView<P>>)
    requires
        begins(begun),
        accepted(begun.job, events),
    ensures
        created(begun, events) == if creations(begun, events).len() > 0 {
            Some(creations(begun, events).last().target)
        } else {
            None
        },
        in_step(run(begun.job, events), asked(begun, events), creations(begun, events)),
    decreases events.len(),
{
    if events.len() > 0 {
        let rest = events.drop_last();
        lemma_last_creation(begun, rest);
        job_stays_valid(begun.job, rest);
        let before = run(begun.job, rest);
        lemma_in_step(before, asked(begun, rest), events.last(), creations(begun, rest));
        let made = creations(begun, rest);
        if events.last() is ChunkRead {
            assert(before.stage is Copying);
        }
    }
}

/// The disk is as the creations say, all along.
proof fn lemma_copies<P, L>(
    begun: TurnView<P>,
    events: Seq<EventView<P>>,
    place: spec_fn(Target<P>) -> L,
    source: spec_fn(P) -> Seq<u8>,
    disks: Seq<Map<L, Seq<u8>>>,
)
    requires
        begins(begun),
        accepted(begun.job, events),
        happened(begun, events, place, disks),
        bytes_moved(begun, events, place, source, disks),
    ensures
        run(begun.job, events).filter == begun.job.filter,
        in_place(
            run(begun.job, events),
            creations(begun, events),
            ledger(begun.job.filter, events).read,
            place,
            source,
            disks.last(),
        ),
    decreases events.len(),
{
    if events.len() > 0 {
        let rest = events.drop_last();
        let n = events.len() as int;
        lemma_copies(begun, rest, place, source, disks.drop_last());
        lemma_last_creation(begun, rest);
        job_stays_valid(begun.job, rest);
        assert(disks.drop_last().last() == disks[n - 1]);
        lemma_in_place(
            run(begun.job, rest),
            asked(begun, rest),
            events.last(),
            creations(begun, rest),
            ledger(begun.job.filter, rest),
            place,
            source,
            disks[n - 1],
            disks[n],
        );
    }
}

/// A file that was read to its end has a whole copy at the place that was created for
/// it, unless something was created there later: after the last event, and at every
/// moment while the driver does what the job asks for next.
pub proof fn copies_are_whole<P, L>(
    begun: TurnView<P>,
    events: Seq<EventView<P>>,
    place: spec_fn(Target<P>) -> L,
    source: spec_fn(P) -> Seq<u8>,
    disks: Seq<Map<L, Seq<u8>>>,
    moment: Map<L, Seq<u8>>,
    k: int,
)
    requires
        begins(begun),
        accepted(begun.job, events),
        happened(begun, events, place, disks),
        bytes_moved(begun, events, place, source, disks),
        does(asked(begun, events), created(begun, events), place, disks.last(), moment),
        lasts(creations(begun, events), place, k),
    ensures
        ({
            let made = creations(begun, events)[k];
            let data = source(run(begun.job, events).files[made.index]);
            &&& 0 <= made.index < run(begun.job, events).files.len()
            &&& holds(disks.last(), place(made.target), data)
            &&& holds(moment, place(made.target), data)
        }),
{
    lemma_copies(begun, events, place, source, disks);
    lemma_last_creation(begun, events);
    let made = creations(begun, events);
    if is_copying(run(begun.job, events).stage, asked(begun, events)) {
        assert(k < made.len() - 1);
        assert(place(made[made.len() - 1].target) != place(made[k].target));
        if disks.last() != moment {
            assert(same_at(disks.last(), moment, place(made[k].target)));
        }
    }
}

// ---------------------------------------------------------------------------
// Where all goes well
// ---------------------------------------------------------------------------

/// What is created where all goes well: whole copies, of one file after the other.
spec fn complete<P>(job: JobView<P>, made: Seq<Creation<P>>) -> bool {
    let under_way = job.stage is Opening || job.stage is Copying;
    &&& forall|k: int|
        0 <= k < made.len() && !(#[trigger] made[k]).whole ==> k == made.len() - 1 && under_way
    &&& job.stage is Stopped ==> job.next == job.files.len()
    &&& job.stage is Renaming ==> job.conflict_res == ConflictResolution::Rename
    &&& job.stage is Measuring ==> job.conflict_res == ConflictResolution::Skip
    &&& job.conflict_res != ConflictResolution::Skip ==> {
        &&& made.len() == job.next + if under_way {
            1int
        } else {
            0
        }
        &&& forall|k: int| 0 <= k < made.len() ==> (#[trigger] made[k]).index == k
    }
    &&& job.conflict_res != ConflictResolution::Rename ==> forall|k: int|
        0 <= k < made.len() ==> (#[trigger] made[k]).target == (Target::Own {
            path: job.files[made[k].index],
        })
}

/// A step that goes well keeps the creations complete.
proof fn lemma_complete_step<P>(
    before: JobView<P>,
    action: ActionView,
    event: EventView<P>,
    made: Seq<Creation<P>>,
)
    requires
        before.valid(),
        before.accepts(event),
        in_step(before, action, made),
        complete(before, made),
        goes_well(before, event),
    ensures
        ({
            let turn = before.step(event);
            &&& complete(turn.job, next_creations(made, event, turn))
            &&& turn.job.conflict_res == before.conflict_res
        }),
{
    let turn = before.step(event);
    let more = next_creations(made, event, turn);
    assert(before.stage is Walking || turn.job.files == before.files);
    assert forall|k: int| 0 <= k < made.len() implies (#[trigger] more[k]).index == made[k].index
        && more[k].target == made[k].target && (made[k].whole ==> more[k].whole) by {}
}

/// Where all goes well, the creations are complete.
proof fn lemma_complete<P>(begun: TurnView<P>, events: Seq<EventView<P>>)
    requires
        begins(begun),
        accepted(begun.job, events),
        all_succeed(events, run(begun.job, events).total_size),
    ensures
        complete(run(begun.job, events), creations(begun, events)),
        run(begun.job, events).conflict_res == begun.job.conflict_res,
    decreases events.len(),
{
    if events.len() > 0 {
        let rest = events.drop_last();
        lemma_success_before(begun.job, events);
        lemma_complete(begun, rest);
        lemma_last_creation(begun, rest);
        job_stays_valid(begun.job, rest);
        lemma_complete_step(
            run(begun.job, rest),
            asked(begun, rest),
            events.last(),
            creations(begun, rest),
        );
    }
}

/// Unless files are to be overwritten, nothing is created in the place of a whole copy.
proof fn lemma_copies_last<P, L>(
    begun: TurnView<P>,
    events: Seq<EventView<P>>,
    place: spec_fn(Target<P>) -> L,
    source: spec_fn(P) -> Seq<u8>,
    disks: Seq<Map<L, Seq<u8>>>,
)
    requires
        begins(begun),
        begun.job.conflict_res != ConflictResolution::Overwrite,
        accepted(begun.job, events),
        happened(begun, events, place, disks),
        bytes_moved(begun, events, place, source, disks),
    ensures
        run(begun.job, events).conflict_res == begun.job.conflict_res,
        forall|k: int|
            0 <= k < creations(begun, events).len() && (#[trigger] creations(
                begun,
                events,
            )[k]).whole ==> lasts(creations(begun, events), place, k),
    decreases events.len(),
{
    if events.len() > 0 {
        let rest = events.drop_last();
        let event = events.last();
        let n = events.len() as int;
        let earlier = disks.drop_last();
        lemma_copies_last(begun, rest, place, source, earlier);
        lemma_copies(begun, rest, place, source, earlier);
        lemma_last_creation(begun, rest);
        job_stays_valid(begun.job, rest);
        let before = run(begun.job, rest);
        let turn = before.step(event);
        let made = creations(begun, rest);
        let more = creations(begun, events);
        lemma_what_is_created(before, event, place, disks[n]);
        lemma_asks_before_it_creates(before, asked(begun, rest), event, made);
        assert(earlier.last() == disks[n - 1]);
        assert forall|k: int| 0 <= k < more.len() && (#[trigger] more[k]).whole implies lasts(
            more,
            place,
            k,
        ) by {
            assert(k < made.len());
            if made[k].whole {
                assert(lasts(made, place, k));
                assert(holds(
                    disks[n - 1],
                    place(made[k].target),
                    source(before.files[made[k].index]),
                ));
            }
            assert forall|j: int| k < j < more.len() implies place((#[trigger] more[j]).target)
                != place(more[k].target) by {
                if j < made.len() {
                    assert(more[j].target == made[j].target);
                }
            }
        }
    }
}

/// A job asks for a file to be created where it was told of a name, and nothing on the
/// disk was changed for that.
proof fn lemma_asks_before_it_creates<P>(
    before: JobView<P>,
    action: ActionView,
    event: EventView<P>,
    made: Seq<Creation<P>>,
)
    requires
        before.valid(),
        before.accepts(event),
        in_step(before, action, made),
    ensures
        creates(before.step(event)) is Some ==> !is_copying(before.stage, action) && !(event
            is ChunkRead),
        event is ChunkRead ==> made.len() > 0,
{
}

/// Where names that are taken get a number and all goes well, every file has in the end a
/// whole copy, each at a place of its own that was free before.
pub proof fn every_file_gets_a_copy<P, L>(
    begun: TurnView<P>,
    events: Seq<EventView<P>>,
    place: spec_fn(Target<P>) -> L,
    source: spec_fn(P) -> Seq<u8>,
    disks: Seq<Map<L, Seq<u8>>>,
)
    requires
        begins(begun),
        begun.job.conflict_res == ConflictResolution::Rename,
        accepted(begun.job, events),
        happened(begun, events, place, disks),
        bytes_moved(begun, events, place, source, disks),
        all_succeed(events, run(begun.job, events).total_size),
        run(begun.job, events).stage is Stopped,
    ensures
        ({
            let made = creations(begun, events);
            let files = run(begun.job, events).files;
            &&& made.len() == files.len()
            &&& forall|i: int|
                0 <= i < files.len() ==> holds(
                    disks.last(),
                    place((#[trigger] made[i]).target),
                    source(files[i]),
                ) && !disks[0].contains_key(place(made[i].target))
            &&& forall|i: int, j: int|
                0 <= i < j < files.len() ==> place((#[trigger] made[i]).target) != place(
                    (#[trigger] made[j]).target,
                )
        }),
{
    lemma_complete(begun, events);
    lemma_copies(begun, events, place, source, disks);
    lemma_copies_last(begun, events, place, source, disks);
    lemma_only_new(begun, events, place, disks);
    let made = creations(begun, events);
    let files = run(begun.job, events).files;
    assert forall|i: int| 0 <= i < files.len() implies holds(
        disks.last(),
        place((#[trigger] made[i]).target),
        source(files[i]),
    ) by {
        assert(made[i].whole);
        assert(lasts(made, place, i));
    }
    assert forall|i: int, j: int| 0 <= i < j < files.len() implies place(
        (#[trigger] made[i]).target,
    ) != place((#[trigger] made[j]).target) by {
        assert(made[i].whole);
        assert(lasts(made, place, i));
    }
}

/// Unless files are to be overwritten, nothing is created where something was at first.
proof fn lemma_only_new<P, L, C>(
    begun: TurnView<P>,
    events: Seq<EventView<P>>,
    place: spec_fn(Target<P>) -> L,
    disks: Seq<Map<L, C>>,
)
    requires
        begins(begun),
        begun.job.conflict_res != ConflictResolution::Overwrite,
        accepted(begun.job, events),
        happened(begun, events, place, disks),
    ensures
        forall|k: int|
            0 <= k < creations(begun, events).len() ==> !disks[0].contains_key(
                place((#[trigger] creations(begun, events)[k]).target),
            ),
    decreases events.len(),
{
    if events.len() > 0 {
        let rest = events.drop_last();
        lemma_only_new(begun, rest, place, disks.drop_last());
        only_new_files_are_touched(begun, events, place, disks);
        lemma_last_creation(begun, rest);
        lemma_last_creation(begun, events);
        job_stays_valid(begun.job, rest);
        let before = run(begun.job, rest);
        let made = creations(begun, rest);
        let more = creations(begun, events);
        lemma_asks_before_it_creates(before, asked(begun, rest), events.last(), made);
        assert forall|k: int| 0 <= k < more.len() implies !disks[0].contains_key(
            place((#[trigger] more[k]).target),
        ) by {
            if k < made.len() {
                assert(more[k].target == made[k].target);
            } else {
                assert(k == more.len() - 1);
            }
        }
    }
}

/// Where files are overwritten and all goes well, every file has in the end a whole copy
/// under its own name, but for those with a later file of that name.
pub proof fn last_file_of_a_name_stays<P, L>(
    begun: TurnView<P>,
    events: Seq<EventView<P>>,
    place: spec_fn(Target<P>) -> L,
    source: spec_fn(P) -> Seq<u8>,
    disks: Seq<Map<L, Seq<u8>>>,
    i: int,
)
    requires
        begins(begun),
        begun.job.conflict_res == ConflictResolution::Overwrite,
        accepted(begun.job, events),
        happened(begun, events, place, disks),
        bytes_moved(begun, events, place, source, disks),
        all_succeed(events, run(begun.job, events).total_size),
        run(begun.job, events).stage is Stopped,
        0 <= i < run(begun.job, events).files.len(),
        forall|j: int|
            i < j < run(begun.job, events).files.len() ==> place(
                Target::Own { path: #[trigger] run(begun.job, events).files[j] },
            ) != place(Target::Own { path: run(begun.job, events).files[i] }),
    ensures
        holds(
            disks.last(),
            place(Target::Own { path: run(begun.job, events).files[i] }),
            source(run(begun.job, events).files[i]),
        ),
{
    lemma_complete(begun, events);
    lemma_copies(begun, events, place, source, disks);
    let made = creations(begun, events);
    let files = run(begun.job, events).files;
    assert(made[i].whole && made[i].target == (Target::Own { path: files[i] }));
    assert forall|j: int| i < j < made.len() implies place((#[trigger] made[j]).target) != place(
        made[i].target,
    ) by {
        assert(made[j].target == (Target::Own { path: files[j] }));
    }
    assert(lasts(made, place, i));
}

// ---------------------------------------------------------------------------
// Where names that are taken are skipped
// ---------------------------------------------------------------------------

/// The place of a file under its own name.
pub open spec fn own_place<P, L>(
    job: JobView<P>,
    place: spec_fn(Target<P>) -> L,
    i: int,
) -> L {
    place(Target::Own { path: job.files[i] })
}

/// What is at the destination where names that are taken are skipped: what was there at
/// first and what was created; and why a file that was handled has no copy of its own.
spec fn accounted<P, L, C>(
    job: JobView<P>,
    made: Seq<Creation<P>>,
    place: spec_fn(Target<P>) -> L,
    first: Map<L, C>,
    disk: Map<L, C>,
) -> bool {
    &&& forall|l: L| #[trigger]
        disk.contains_key(l) ==> first.contains_key(l) || exists|k: int|
            0 <= k < made.len() && place((#[trigger] made[k]).target) == l
    &&& job.stage is Measuring ==> disk.contains_key(own_place(job, place, job.next))
    &&& !(job.stage is Walking) ==> forall|i: int|
        0 <= i < job.next ==> #[trigger] is_accounted(job, made, place, first, i)
}

/// Whether a file has a copy of its own, or its name was taken: at first, or by an
/// earlier file.
spec fn is_accounted<P, L, C>(
    job: JobView<P>,
    made: Seq<Creation<P>>,
    place: spec_fn(Target<P>) -> L,
    first: Map<L, C>,
    i: int,
) -> bool {
    ||| first.contains_key(own_place(job, place, i))
    ||| exists|j: int| 0 <= j < i && #[trigger] own_place(job, place, j) == own_place(job, place, i)
    ||| exists|k: int| 0 <= k < made.len() && (#[trigger] made[k]).index == i
}

/// A step keeps the files accounted for.
proof fn lemma_accounted_step<P, L, C>(
    before: JobView<P>,
    action: ActionView,
    event: EventView<P>,
    made: Seq<Creation<P>>,
    place: spec_fn(Target<P>) -> L,
    first: Map<L, C>,
    old_disk: Map<L, C>,
    new_disk: Map<L, C>,
)
    requires
        before.valid(),
        before.accepts(event),
        before.conflict_res == ConflictResolution::Skip,
        in_step(before, action, made),
        complete(before, made),
        goes_well(before, event),
        accounted(before, made, place, first, old_disk),
        does(
            action,
            if made.len() > 0 {
                Some(made.last().target)
            } else {
                None
            },
            place,
            old_disk,
            new_disk,
        ),
        is_true(before, event, place, new_disk),
    ensures
        ({
            let turn = before.step(event);
            accounted(turn.job, next_creations(made, event, turn), place, first, new_disk)
        }),
{
    let turn = before.step(event);
    let now = turn.job;
    let more = next_creations(made, event, turn);
    lemma_asks_before_it_creates(before, action, event, made);
    assert(before.stage is Walking || now.files == before.files);
    assert forall|k: int| 0 <= k < made.len() implies (#[trigger] more[k]).index == made[k].index
        && more[k].target == made[k].target by {}
    assert(more.len() >= made.len());
    assert forall|l: L| #[trigger] new_disk.contains_key(l) implies first.contains_key(l)
        || exists|k: int| 0 <= k < more.len() && place((#[trigger] more[k]).target) == l by {
        if is_copying(before.stage, action) && l == place(made.last().target) {
            assert(place(more[made.len() - 1].target) == l);
        } else {
            if is_copying(before.stage, action) {
                assert(same_at(old_disk, new_disk, l));
            }
            assert(old_disk.contains_key(l));
            if !first.contains_key(l) {
                let k = choose|k: int|
                    0 <= k < made.len() && place((#[trigger] made[k]).target) == l;
                assert(place(more[k].target) == l);
            }
        }
    }
    if !(now.stage is Walking) {
        assert forall|i: int| 0 <= i < now.next implies #[trigger] is_accounted(
            now,
            more,
            place,
            first,
            i,
        ) by {
            if i < before.next {
                assert(is_accounted(before, made, place, first, i));
                lemma_stays_accounted(before, now, made, more, place, first, i);
            } else if before.stage is Measuring {
                let l = own_place(before, place, i);
                assert(old_disk.contains_key(l));
                if !first.contains_key(l) {
                    let k = choose|k: int|
                        0 <= k < made.len() && place((#[trigger] made[k]).target) == l;
                    let j = made[k].index;
                    assert(made[k].target == (Target::Own { path: before.files[j] }));
                    assert(more[k].index == j);
                    if j < i {
                        assert(own_place(now, place, j) == own_place(now, place, i));
                    }
                }
            } else {
                assert(more[made.len() - 1].index == i);
            }
        }
    }
}

/// A file that is accounted for stays so.
proof fn lemma_stays_accounted<P, L, C>(
    before: JobView<P>,
    now: JobView<P>,
    made: Seq<Creation<P>>,
    more: Seq<Creation<P>>,
    place: spec_fn(Target<P>) -> L,
    first: Map<L, C>,
    i: int,
)
    requires
        is_accounted(before, made, place, first, i),
        now.files == before.files,
        more.len() >= made.len(),
        forall|k: int| 0 <= k < made.len() ==> (#[trigger] more[k]).index == made[k].index,
    ensures
        is_accounted(now, more, place, first, i),
{
    if exists|j: int|
        0 <= j < i && #[trigger] own_place(before, place, j) == own_place(before, place, i) {
        let j = choose|j: int|
            0 <= j < i && #[trigger] own_place(before, place, j) == own_place(before, place, i);
        assert(own_place(now, place, j) == own_place(now, place, i));
    } else if exists|k: int| 0 <= k < made.len() && (#[trigger] made[k]).index == i {
        let k = choose|k: int| 0 <= k < made.len() && (#[trigger] made[k]).index == i;
        assert(more[k].index == i);
    }
    assert(own_place(now, place, i) == own_place(before, place, i));
}

/// The files are accounted for, all along.
proof fn lemma_accounted<P, L, C>(
    begun: TurnView<P>,
    events: Seq<EventView<P>>,
    place: spec_fn(Target<P>) -> L,
    disks: Seq<Map<L, C>>,
)
    requires
        begins(begun),
        begun.job.conflict_res == ConflictResolution::Skip,
        accepted(begun.job, events),
        happened(begun, events, place, disks),
        all_succeed(events, run(begun.job, events).total_size),
    ensures
        accounted(
            run(begun.job, events),
            creations(begun, events),
            place,
            disks[0],
            disks.last(),
        ),
    decreases events.len(),
{
    if events.len() > 0 {
        let rest = events.drop_last();
        let n = events.len() as int;
        lemma_success_before(begun.job, events);
        lemma_accounted(begun, rest, place, disks.drop_last());
        lemma_complete(begun, rest);
        lemma_last_creation(begun, rest);
        job_stays_valid(begun.job, rest);
        assert(disks.drop_last().last() == disks[n - 1]);
        lemma_accounted_step(
            run(begun.job, rest),
            asked(begun, rest),
            events.last(),
            creations(begun, rest),
            place,
            disks[0],
            disks[n - 1],
            disks[n],
        );
    }
}

/// Where names that are taken are skipped and all goes well, every file has in the end a
/// whole copy under its own name, if that was free before and no earlier file has it.
pub proof fn files_with_a_free_name_are_copied<P, L>(
    begun: TurnView<P>,
    events: Seq<EventView<P>>,
    place: spec_fn(Target<P>) -> L,
    source: spec_fn(P) -> Seq<u8>,
    disks: Seq<Map<L, Seq<u8>>>,
    i: int,
)
    requires
        begins(begun),
        begun.job.conflict_res == ConflictResolution::Skip,
        accepted(begun.job, events),
        happened(begun, events, place, disks),
        bytes_moved(begun, events, place, source, disks),
        all_succeed(events, run(begun.job, events).total_size),
        run(begun.job, events).stage is Stopped,
        0 <= i < run(begun.job, events).files.len(),
        !disks[0].contains_key(own_place(run(begun.job, events), place, i)),
        forall|j: int|
            0 <= j < i ==> #[trigger] own_place(run(begun.job, events), place, j) != own_place(
                run(begun.job, events),
                place,
                i,
            ),
    ensures
        holds(
            disks.last(),
            own_place(run(begun.job, events), place, i),
            source(run(begun.job, events).files[i]),
        ),
{
    lemma_complete(begun, events);
    lemma_copies(begun, events, place, source, disks);
    lemma_copies_last(begun, events, place, source, disks);
    lemma_accounted(begun, events, place, disks);
    let now = run(begun.job, events);
    let made = creations(begun, events);
    assert(is_accounted(now, made, place, disks[0], i));
    let k = choose|k: int| 0 <= k < made.len() && (#[trigger] made[k]).index == i;
    assert(made[k].whole);
    assert(lasts(made, place, k));
}

} // verus!
