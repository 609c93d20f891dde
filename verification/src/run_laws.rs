//! What an import does, told of the functions that run it: from the values that it is
//! begun with and the events that it is handed, to its messages and actions.
use crate::date::Date;
use crate::filter::{day, Entry, Filter, FilterView};
use crate::importer::{
    start_import, ActionView, ConflictResolution, FileName, ImportAction, ImportEvent,
    ImportJob, ImportTurn, ProgressMessage, Stage, StageView,
};
use crate::pace_laws::{lemma_pace, lemma_percent, tells_pace, tells_percent};
use crate::progress::Seconds;
use crate::selection_laws::{is_wanted, lemma_wanted};
use crate::text::{decimal, texts};
use crate::text_laws::{decimal_reads_back, reads_as};
use vstd::prelude::*;

verus! {

/// Whether a turn follows from another with an event that the job accepts.
#[verifier::opaque]
pub open spec fn follows<P>(
    before: ImportTurn<P>,
    event: ImportEvent<P>,
    after: ImportTurn<P>,
) -> bool {
    before.job@.accepts(event@) && call_ensures(ImportJob::<P>::step, (before.job, event), after)
}

/// Whether turns are those of a run: each but the first follows from the one before.
pub open spec fn is_run<P>(turns: Seq<ImportTurn<P>>, events: Seq<ImportEvent<P>>) -> bool {
    &&& turns.len() == events.len() + 1
    &&& forall|k: int|
        0 <= k < events.len() ==> follows(#[trigger] turns[k], events[k], turns[k + 1])
}

/// Whether a message has these values, and tells neither speed nor remaining time.
pub open spec fn says(
    m: ProgressMessage,
    source_index: usize,
    status: Seq<char>,
    percent: int,
    total: int,
    copied: int,
    done: bool,
) -> bool {
    &&& m.source_index == source_index
    &&& m.status@ == status
    &&& m.progress_percent == percent
    &&& m.speed_bytes_per_sec == 0
    &&& m.eta_seconds is None
    &&& m.total_size_bytes == total
    &&& m.copied_size_bytes == copied
    &&& m.done == done
}

/// The bits of the binary32 number 100.
pub open spec fn a_hundred() -> int {
    0x42c8_0000
}

// ---------------------------------------------------------------------------
// The beginning
// ---------------------------------------------------------------------------

/// An import begins with a walk, with the message that it looks for files, with no files
/// yet, and with just the values that it was given.
pub proof fn import_begins_with_what_is_given<P>(
    source_index: usize,
    project_label: String,
    camera_label: String,
    extensions: Vec<String>,
    start_date: Option<Date>,
    end_date: Option<Date>,
    conflict_res: ConflictResolution,
    turn: ImportTurn<P>,
)
    requires
        call_ensures(
            start_import::<P>,
            (
                source_index,
                project_label,
                camera_label,
                extensions,
                start_date,
                end_date,
                conflict_res,
            ),
            turn,
        ),
    ensures
        turn.action@ is NextEntry,
        turn.reports@.len() == 1,
        says(turn.reports@[0], source_index, "Scanning for files..."@, 0, 0, 0, false),
        turn.job@.stage is Walking,
        turn.job@.files.len() == 0,
        turn.job@.next == 0,
        turn.job@.total_size == 0,
        turn.job@.copied_size == 0,
        turn.job@.source_index == source_index,
        turn.job@.project_label == project_label@,
        turn.job@.camera_label == camera_label@,
        turn.job@.conflict_res == conflict_res,
        turn.job@.filter.extensions.len() == extensions@.len(),
        forall|i: int|
            0 <= i < extensions@.len() ==> #[trigger] turn.job@.filter.extensions[i]
                == extensions@[i]@,
        start_date matches Some(d) ==> turn.job@.filter.start_date == Some(d@),
        start_date is None ==> turn.job@.filter.start_date is None,
        end_date matches Some(d) ==> turn.job@.filter.end_date == Some(d@),
        end_date is None ==> turn.job@.filter.end_date is None,
{
    assert(turn@.reports.len() == turn.reports@.len());
    assert(turn@.reports[0] == turn.reports@[0]@);
}

/// What a step leaves alone: what the import was begun with.
pub proof fn settings_stay<P>(job: ImportJob<P>, event: ImportEvent<P>, turn: ImportTurn<P>)
    requires
        call_ensures(ImportJob::<P>::step, (job, event), turn),
    ensures
        turn.job@.source_index == job@.source_index,
        turn.job@.project_label == job@.project_label,
        turn.job@.camera_label == job@.camera_label,
        turn.job@.filter == job@.filter,
        turn.job@.conflict_res == job@.conflict_res,
        !(event is Walked) ==> turn.job@.files == job@.files && turn.job@.total_size
            == job@.total_size,
{
}

/// A turn has the settings of the one that it follows from.
proof fn lemma_settings<P>(before: ImportTurn<P>, event: ImportEvent<P>, after: ImportTurn<P>)
    requires
        follows(before, event, after),
    ensures
        after.job@.source_index == before.job@.source_index,
        after.job@.project_label == before.job@.project_label,
        after.job@.camera_label == before.job@.camera_label,
        after.job@.filter == before.job@.filter,
        after.job@.conflict_res == before.job@.conflict_res,
{
    reveal(follows);
    settings_stay(before.job, event, after);
}

/// All along a run, what the import was begun with stays.
pub proof fn settings_stay_all_along<P>(
    turns: Seq<ImportTurn<P>>,
    events: Seq<ImportEvent<P>>,
    k: int,
)
    requires
        is_run(turns, events),
        0 <= k < turns.len(),
    ensures
        turns[k].job@.source_index == turns[0].job@.source_index,
        turns[k].job@.project_label == turns[0].job@.project_label,
        turns[k].job@.camera_label == turns[0].job@.camera_label,
        turns[k].job@.filter == turns[0].job@.filter,
        turns[k].job@.conflict_res == turns[0].job@.conflict_res,
    decreases k,
{
    if k > 0 {
        settings_stay_all_along(turns, events, k - 1);
        assert(follows(turns[k - 1], events[k - 1], turns[k - 1 + 1]));
        lemma_settings(turns[k - 1], events[k - 1], turns[k]);
    }
}

/// A step asks for a directory only as the camera's in the project's.
proof fn lemma_directory<P>(before: ImportTurn<P>, event: ImportEvent<P>, after: ImportTurn<P>)
    requires
        follows(before, event, after),
        after.action@ is MakeDir,
    ensures
        after.action@->folders == seq![before.job@.project_label, before.job@.camera_label],
{
    reveal(follows);
}

/// A run asks for a directory only as the camera's in the project's.
proof fn lemma_directory_in_run<P>(
    turns: Seq<ImportTurn<P>>,
    events: Seq<ImportEvent<P>>,
    k: int,
)
    requires
        is_run(turns, events),
        0 < k < turns.len(),
        turns[k].action@ is MakeDir,
    ensures
        turns[k].action@->folders == seq![
            turns[0].job@.project_label,
            turns[0].job@.camera_label,
        ],
{
    settings_stay_all_along(turns, events, k - 1);
    assert(follows(turns[k - 1], events[k - 1], turns[k - 1 + 1]));
    lemma_directory(turns[k - 1], events[k - 1], turns[k]);
}

/// Whenever an import asks for a directory, it is the one of the camera in the one of the
/// project: the labels that it was begun with, these two and in this order.
pub proof fn directory_is_camera_in_project<P>(
    source_index: usize,
    project_label: String,
    camera_label: String,
    extensions: Vec<String>,
    start_date: Option<Date>,
    end_date: Option<Date>,
    conflict_res: ConflictResolution,
    turns: Seq<ImportTurn<P>>,
    events: Seq<ImportEvent<P>>,
    k: int,
)
    requires
        is_run(turns, events),
        call_ensures(
            start_import::<P>,
            (
                source_index,
                project_label,
                camera_label,
                extensions,
                start_date,
                end_date,
                conflict_res,
            ),
            turns[0],
        ),
        0 <= k < turns.len(),
        turns[k].action@ is MakeDir,
    ensures
        turns[k].action@->folders.len() == 2,
        turns[k].action@->folders[0] == project_label@,
        turns[k].action@->folders[1] == camera_label@,
{
    import_begins_with_what_is_given(
        source_index,
        project_label,
        camera_label,
        extensions,
        start_date,
        end_date,
        conflict_res,
        turns[0],
    );
    assert(k > 0);
    lemma_directory_in_run(turns, events, k);
}

// ---------------------------------------------------------------------------
// The walk
// ---------------------------------------------------------------------------

/// The paths of the wanted entries of a walk, in its order.
pub open spec fn wanted_paths<P>(
    extensions: Vec<String>,
    first: Option<Date>,
    last: Option<Date>,
    walk: Seq<(P, Entry)>,
) -> Seq<P>
    decreases walk.len(),
{
    if walk.len() == 0 {
        seq![]
    } else {
        let before = wanted_paths(extensions, first, last, walk.drop_last());
        if is_wanted(extensions, first, last, walk.last().1) {
            before.push(walk.last().0)
        } else {
            before
        }
    }
}

/// The bytes of the wanted entries of a walk.
pub open spec fn wanted_bytes<P>(
    extensions: Vec<String>,
    first: Option<Date>,
    last: Option<Date>,
    walk: Seq<(P, Entry)>,
) -> nat
    decreases walk.len(),
{
    if walk.len() == 0 {
        0
    } else {
        wanted_bytes(extensions, first, last, walk.drop_last()) + if is_wanted(
            extensions,
            first,
            last,
            walk.last().1,
        ) {
            walk.last().1.metadata->Some_0.len as nat
        } else {
            0
        }
    }
}

/// An entry of the walk is taken if it is wanted.
proof fn lemma_entry<P>(
    before: ImportTurn<P>,
    path: P,
    entry: Entry,
    extensions: Vec<String>,
    first: Option<Date>,
    last: Option<Date>,
    after: ImportTurn<P>,
)
    requires
        follows(before, ImportEvent::Walked { path, entry }, after),
        before.job@.stage is Walking,
        before.job@.filter == (FilterView {
            extensions: texts(extensions@),
            start_date: day(first),
            end_date: day(last),
        }),
    ensures
        is_wanted(extensions, first, last, entry) ==> after.job@.files == before.job@.files.push(
            path,
        ) && after.job@.total_size == before.job@.total_size + entry.metadata->Some_0.len,
        !is_wanted(extensions, first, last, entry) ==> after.job@.files == before.job@.files
            && after.job@.total_size == before.job@.total_size,
        after.job@.copied_size == before.job@.copied_size,
        after.job@.stage is Walking,
        after.action@ is NextEntry,
        after.reports@.len() == 0,
{
    reveal(follows);
    lemma_wanted(extensions, first, last, entry);
    assert(after@.reports.len() == after.reports@.len());
}

/// After a walk from the beginning, the files of an import are just the entries that are
/// files, have one of the extensions that were given, and whose day, where it is known,
/// is neither before the first day nor after the last day that were given; its total is
/// the sum of their lengths. Meanwhile it reports nothing and asks for the next entry.
pub proof fn walk_takes_just_what_is_wanted<P>(
    source_index: usize,
    project_label: String,
    camera_label: String,
    extensions: Vec<String>,
    start_date: Option<Date>,
    end_date: Option<Date>,
    conflict_res: ConflictResolution,
    turns: Seq<ImportTurn<P>>,
    events: Seq<ImportEvent<P>>,
    walk: Seq<(P, Entry)>,
)
    requires
        is_run(turns, events),
        call_ensures(
            start_import::<P>,
            (
                source_index,
                project_label,
                camera_label,
                extensions,
                start_date,
                end_date,
                conflict_res,
            ),
            turns[0],
        ),
        walk.len() == events.len(),
        forall|k: int|
            0 <= k < events.len() ==> #[trigger] events[k] == (ImportEvent::Walked {
                path: walk[k].0,
                entry: walk[k].1,
            }),
    ensures
        turns.last().job@.files == wanted_paths(extensions, start_date, end_date, walk),
        turns.last().job@.total_size == wanted_bytes(extensions, start_date, end_date, walk),
        turns.last().job@.copied_size == 0,
        turns.last().job@.stage is Walking,
        turns.last().action@ is NextEntry,
        events.len() > 0 ==> turns.last().reports@.len() == 0,
    decreases events.len(),
{
    if events.len() > 0 {
        let n = events.len() - 1;
        let (t, e, w) = (turns.drop_last(), events.drop_last(), walk.drop_last());
        assert forall|k: int| 0 <= k < e.len() implies follows(
            #[trigger] t[k],
            e[k],
            t[k + 1],
        ) by {
            assert(follows(turns[k], events[k], turns[k + 1]));
        }
        assert forall|k: int| 0 <= k < e.len() implies #[trigger] e[k] == (ImportEvent::Walked {
            path: w[k].0,
            entry: w[k].1,
        }) by {
            assert(e[k] == events[k]);
        }
        walk_takes_just_what_is_wanted(
            source_index,
            project_label,
            camera_label,
            extensions,
            start_date,
            end_date,
            conflict_res,
            t,
            e,
            w,
        );
        settings_stay_all_along(turns, events, n);
        lemma_first_filter(
            source_index,
            project_label,
            camera_label,
            extensions,
            start_date,
            end_date,
            conflict_res,
            turns[0],
        );
        assert(follows(turns[n], events[n], turns[n + 1]));
        lemma_entry(
            turns[n],
            walk[n].0,
            walk[n].1,
            extensions,
            start_date,
            end_date,
            turns[n + 1],
        );
    } else {
        import_begins_with_what_is_given(
            source_index,
            project_label,
            camera_label,
            extensions,
            start_date,
            end_date,
            conflict_res,
            turns[0],
        );
        assert(turns[0].job@.files =~= seq![]);
    }
}

/// An import begins with the filter that its values make.
proof fn lemma_first_filter<P>(
    source_index: usize,
    project_label: String,
    camera_label: String,
    extensions: Vec<String>,
    start_date: Option<Date>,
    end_date: Option<Date>,
    conflict_res: ConflictResolution,
    turn: ImportTurn<P>,
)
    requires
        call_ensures(
            start_import::<P>,
            (
                source_index,
                project_label,
                camera_label,
                extensions,
                start_date,
                end_date,
                conflict_res,
            ),
            turn,
        ),
    ensures
        turn.job@.filter == (FilterView {
            extensions: texts(extensions@),
            start_date: day(start_date),
            end_date: day(end_date),
        }),
{
}

/// Once the walk has ended, an import without files says so and stops; another asks for
/// the free space, and says nothing.
pub proof fn walk_ends<P>(job: ImportJob<P>, turn: ImportTurn<P>)
    requires
        call_ensures(ImportJob::<P>::step, (job, ImportEvent::WalkEnded), turn),
    ensures
        job@.files.len() == 0 ==> {
            &&& turn.reports@.len() == 1
            &&& says(
                turn.reports@[0],
                job@.source_index,
                "No matching files found."@,
                a_hundred(),
                0,
                0,
                true,
            )
            &&& turn.action@ is Stop
            &&& turn.job@.stage is Stopped
        },
        job@.files.len() > 0 ==> {
            &&& turn.reports@.len() == 0
            &&& turn.action@ is AskFreeSpace
            &&& turn.job@.stage is CheckingSpace
        },
        turn.job@.next == job@.next,
        turn.job@.copied_size == job@.copied_size,
{
    assert(turn@.reports.len() == turn.reports@.len());
    if job@.files.len() == 0 {
        assert(turn@.reports[0] == turn.reports@[0]@);
    }
}

// ---------------------------------------------------------------------------
// Room and directory
// ---------------------------------------------------------------------------

/// Where the free space is known and does not hold the files with a hundred mebibytes
/// left, the import says how many mebibytes it needs and how many there are, and stops;
/// else it asks for its directory, and says nothing.
pub proof fn files_need_room<P>(job: ImportJob<P>, free: Option<u64>, turn: ImportTurn<P>)
    requires
        0 <= job@.total_size,
        call_ensures(ImportJob::<P>::step, (job, ImportEvent::FreeSpace { free }), turn),
    ensures
        ({
            let short = free matches Some(f) && job@.total_size > 0 && f < job@.total_size + 100
                * 1024 * 1024;
            &&& short ==> {
                &&& turn.reports@.len() == 1
                &&& turn.action@ is Stop
                &&& turn.job@.stage is Stopped
                &&& exists|need: Seq<char>, have: Seq<char>|
                    #![trigger reads_as(need, job@.total_size / 0x10_0000), reads_as(have, (free->Some_0 / 0x10_0000) as int)]
                    {
                        &&& reads_as(need, job@.total_size / 0x10_0000)
                        &&& reads_as(have, (free->Some_0 / 0x10_0000) as int)
                        &&& says(
                            turn.reports@[0],
                            job@.source_index,
                            "Error: Not enough space! Need "@ + need + " MB, have "@ + have
                                + " MB"@,
                            a_hundred(),
                            job@.total_size,
                            0,
                            true,
                        )
                    }
            }
            &&& !short ==> {
                &&& turn.reports@.len() == 0
                &&& turn.action@ is MakeDir
                &&& turn.action@->folders == seq![job@.project_label, job@.camera_label]
                &&& turn.job@.stage is MakingDir
            }
        }),
        turn.job@.next == job@.next,
        turn.job@.copied_size == job@.copied_size,
{
    assert(turn@.reports.len() == turn.reports@.len());
    let need = decimal((job@.total_size / 0x10_0000) as nat);
    decimal_reads_back((job@.total_size / 0x10_0000) as nat);
    if let Some(f) = free {
        let have = decimal((f / 0x10_0000) as nat);
        decimal_reads_back((f / 0x10_0000) as nat);
        if turn.reports@.len() == 1 {
            assert(turn@.reports[0] == turn.reports@[0]@);
            assert(reads_as(need, job@.total_size / 0x10_0000));
            assert(reads_as(have, (f / 0x10_0000) as int));
        }
    }
}

/// Once its directory is there, an import says how many files it has found, and asks for
/// the name of the first.
pub proof fn directory_is_made<P>(job: ImportJob<P>, turn: ImportTurn<P>)
    requires
        call_ensures(ImportJob::<P>::step, (job, ImportEvent::DirMade), turn),
    ensures
        turn.reports@.len() == 1,
        exists|count: Seq<char>| #[trigger]
            reads_as(count, job@.files.len() as int) && says(
                turn.reports@[0],
                job@.source_index,
                "Found "@ + count + " files to copy"@,
                0,
                job@.total_size,
                0,
                false,
            ),
        turn.action@ == (ActionView::ProbeFile { index: job@.next }),
        turn.job@.stage is Starting,
        turn.job@.next == job@.next,
        turn.job@.copied_size == job@.copied_size,
{
    decimal_reads_back(job@.files.len());
    assert(turn@.reports.len() == turn.reports@.len());
    assert(turn@.reports[0] == turn.reports@[0]@);
    assert(reads_as(decimal(job@.files.len()), job@.files.len() as int));
}

/// Where its directory cannot be made, an import says why, and stops.
pub proof fn directory_is_not_made<P>(job: ImportJob<P>, reason: String, turn: ImportTurn<P>)
    requires
        call_ensures(ImportJob::<P>::step, (job, ImportEvent::DirFailed { reason }), turn),
    ensures
        turn.reports@.len() == 1,
        says(
            turn.reports@[0],
            job@.source_index,
            "Error creating dir: "@ + reason@,
            0,
            job@.total_size,
            0,
            true,
        ),
        turn.action@ is Stop,
        turn.job@.stage is Stopped,
        turn.job@.copied_size == job@.copied_size,
{
    assert(turn@.reports.len() == turn.reports@.len());
    assert(turn@.reports[0] == turn.reports@[0]@);
}

// ---------------------------------------------------------------------------
// One file
// ---------------------------------------------------------------------------

/// Whether an import says that it begins to copy a file of some name, and asks for it and
/// its copy to be opened: under its own name, or under another.
pub open spec fn begins_to_copy<P>(
    job: ImportJob<P>,
    turn: ImportTurn<P>,
    name: Seq<char>,
    target: Option<Seq<char>>,
) -> bool {
    &&& turn.reports@.len() == 1
    &&& says(
        turn.reports@[0],
        job@.source_index,
        "Copying "@ + name + "..."@,
        turn.reports@[0].progress_percent as int,
        job@.total_size,
        job@.copied_size,
        false,
    )
    &&& tells_percent(
        turn.reports@[0].progress_percent as int,
        job@.copied_size as nat,
        job@.total_size as nat,
    )
    &&& turn.action@ == (ActionView::OpenFiles { index: job@.next, target })
    &&& turn.job@.stage == (StageView::Opening { name })
    &&& turn.job@.next == job@.next
    &&& turn.job@.copied_size == job@.copied_size
}

/// A file whose name is free is copied under that. Of one whose name is taken, the length
/// is asked for where such files are skipped; it is copied all the same where they are
/// overwritten; and a number is tried where they are renamed.
pub proof fn taken_names_are_resolved<P>(
    job: ImportJob<P>,
    name: FileName,
    taken: bool,
    turn: ImportTurn<P>,
)
    requires
        0 <= job@.copied_size,
        0 <= job@.total_size,
        call_ensures(ImportJob::<P>::step, (job, ImportEvent::Probed { name, taken }), turn),
    ensures
        !taken || job@.conflict_res == ConflictResolution::Overwrite ==> begins_to_copy(
            job,
            turn,
            name.shown@,
            None,
        ),
        taken && job@.conflict_res == ConflictResolution::Skip ==> {
            &&& turn.reports@.len() == 0
            &&& turn.action@ == (ActionView::MeasureFile { index: job@.next })
            &&& turn.job@.stage == (StageView::Measuring { name: name.shown@ })
        },
        taken && job@.conflict_res == ConflictResolution::Rename ==> {
            &&& turn.reports@.len() == 0
            &&& turn.action@ is ProbeName
            &&& is_numbered(turn.action@->ProbeName_name, name.stem@, name.extension@, 1)
            &&& turn.job@.stage == (StageView::Renaming { file: name@, counter: 1 })
        },
        turn.job@.next == job@.next,
        turn.job@.copied_size == job@.copied_size,
{
    assert(turn@.reports.len() == turn.reports@.len());
    lemma_percent(job@.copied_size as nat, job@.total_size as nat);
    if turn.reports@.len() == 1 {
        assert(turn@.reports[0] == turn.reports@[0]@);
    } else {
        lemma_numbered(name, 1);
    }
}

/// Whether a name is a stem, an underscore and a number, with the extension behind a
/// point if there is one.
pub open spec fn is_numbered(
    name: Seq<char>,
    stem: Seq<char>,
    extension: Seq<char>,
    number: int,
) -> bool {
    exists|digits: Seq<char>| #[trigger]
        reads_as(digits, number) && name == stem + "_"@ + digits + if extension.len() > 0 {
            "."@ + extension
        } else {
            seq![]
        }
}

proof fn lemma_numbered(file: FileName, number: nat)
    ensures
        is_numbered(file@.numbered(number as int), file.stem@, file.extension@, number as int),
{
    decimal_reads_back(number);
    let digits = decimal(number);
    assert(reads_as(digits, number as int));
    let head = file.stem@ + "_"@ + digits;
    if file.extension@.len() > 0 {
        assert(head + "."@ + file.extension@ =~= head + ("."@ + file.extension@));
    } else {
        assert(head + seq![] =~= head);
    }
}

/// A numbered name is what it is called.
pub proof fn numbers_go_behind_the_stem(file: FileName, counter: i32, name: String)
    requires
        counter >= 0,
        call_ensures(FileName::numbered, (&file, counter), name),
    ensures
        is_numbered(name@, file.stem@, file.extension@, counter as int),
{
    lemma_numbered(file, counter as nat);
}

/// While numbered names are taken, the next number is tried; one that is free is used,
/// and the message has the file's own name.
pub proof fn numbers_are_tried_in_turn<P>(
    job: ImportJob<P>,
    file: FileName,
    counter: int,
    taken: bool,
    turn: ImportTurn<P>,
)
    requires
        0 <= job@.copied_size,
        0 <= job@.total_size,
        counter >= 1,
        job@.stage == (StageView::Renaming { file: file@, counter }),
        call_ensures(ImportJob::<P>::step, (job, ImportEvent::NameProbed { taken }), turn),
    ensures
        taken ==> {
            &&& turn.reports@.len() == 0
            &&& turn.action@ is ProbeName
            &&& is_numbered(
                turn.action@->ProbeName_name,
                file.stem@,
                file.extension@,
                counter + 1,
            )
            &&& turn.job@.stage == (StageView::Renaming { file: file@, counter: counter + 1 })
        },
        !taken ==> {
            &&& turn.action@ is OpenFiles
            &&& turn.action@->target is Some
            &&& is_numbered(
                turn.action@->target->Some_0,
                file.stem@,
                file.extension@,
                counter,
            )
            &&& begins_to_copy(job, turn, file.shown@, turn.action@->target)
        },
        turn.job@.next == job@.next,
        turn.job@.copied_size == job@.copied_size,
{
    assert(turn@.reports.len() == turn.reports@.len());
    lemma_percent(job@.copied_size as nat, job@.total_size as nat);
    lemma_numbered(file, (counter + 1) as nat);
    lemma_numbered(file, counter as nat);
    if turn.reports@.len() == 1 {
        assert(turn@.reports[0] == turn.reports@[0]@);
    }
}

/// Whether an import goes on to its next file without a word, or, after its last, says
/// that it is done and stops. The message is the last of the turn.
pub open spec fn goes_on<P>(job: ImportJob<P>, turn: ImportTurn<P>, said_before: int) -> bool {
    &&& turn.job@.next == job@.next + 1
    &&& job@.next + 1 < job@.files.len() ==> {
        &&& turn.reports@.len() == said_before
        &&& turn.action@ == (ActionView::ProbeFile { index: job@.next + 1 })
        &&& turn.job@.stage is Starting
    }
    &&& job@.next + 1 >= job@.files.len() ==> {
        &&& turn.reports@.len() == said_before + 1
        &&& says(
            turn.reports@.last(),
            job@.source_index,
            "Done"@,
            a_hundred(),
            job@.total_size,
            turn.job@.copied_size,
            true,
        )
        &&& turn.action@ is Stop
        &&& turn.job@.stage is Stopped
    }
}

/// A file that is skipped counts as copied as far as its length can be read; the import
/// says that it is skipped, and goes on.
pub proof fn skipped_files_count<P>(
    job: ImportJob<P>,
    name: Seq<char>,
    len: Option<u64>,
    turn: ImportTurn<P>,
)
    requires
        0 <= job@.copied_size,
        0 <= job@.total_size,
        job@.stage == (StageView::Measuring { name }),
        call_ensures(ImportJob::<P>::step, (job, ImportEvent::Measured { len }), turn),
    ensures
        turn.job@.copied_size == job@.copied_size + match len {
            Some(n) => n as int,
            None => 0,
        },
        turn.reports@.len() > 0,
        says(
            turn.reports@[0],
            job@.source_index,
            "Skipped "@ + name,
            turn.reports@[0].progress_percent as int,
            job@.total_size,
            turn.job@.copied_size,
            false,
        ),
        tells_percent(
            turn.reports@[0].progress_percent as int,
            turn.job@.copied_size as nat,
            job@.total_size as nat,
        ),
        goes_on(job, turn, 1),
{
    assert(turn@.reports.len() == turn.reports@.len());
    lemma_percent(turn.job@.copied_size as nat, job@.total_size as nat);
    assert(turn@.reports[0] == turn.reports@[0]@);
    assert(turn@.reports.last() == turn.reports@.last()@);
}

/// A file that is open with its copy is copied; one that is not is passed over.
pub proof fn open_files_are_copied<P>(
    job: ImportJob<P>,
    name: Seq<char>,
    both: bool,
    turn: ImportTurn<P>,
)
    requires
        job@.stage == (StageView::Opening { name }),
        call_ensures(ImportJob::<P>::step, (job, ImportEvent::Opened { both }), turn),
    ensures
        both ==> {
            &&& turn.reports@.len() == 0
            &&& turn.action@ is CopyChunk
            &&& turn.job@.stage == (StageView::Copying { name })
            &&& turn.job@.next == job@.next
        },
        !both ==> goes_on(job, turn, 0),
        turn.job@.copied_size == job@.copied_size,
{
    assert(turn@.reports.len() == turn.reports@.len());
    if turn.reports@.len() > 0 {
        assert(turn@.reports.last() == turn.reports@.last()@);
    }
}

/// A chunk that was written counts, and the import asks for the next. Its message tells
/// the bytes copied so far, the percentage of these in the total, as speed the quotient
/// of these by the time since copying began, and as remaining time the whole part of what
/// is left of the total over that speed.
pub proof fn written_chunks_are_told<P>(
    job: ImportJob<P>,
    name: Seq<char>,
    bytes: u64,
    elapsed: Seconds,
    turn: ImportTurn<P>,
)
    requires
        0 <= job@.copied_size,
        0 <= job@.total_size,
        bytes > 0,
        job@.stage == (StageView::Copying { name }),
        call_ensures(
            ImportJob::<P>::step,
            (job, ImportEvent::ChunkRead { bytes, written: true, elapsed }),
            turn,
        ),
    ensures
        ({
            let m = turn.reports@[0];
            &&& turn.reports@.len() == 1
            &&& m.source_index == job@.source_index
            &&& m.status@ == "Copying: "@ + name
            &&& m.copied_size_bytes == job@.copied_size + bytes
            &&& m.total_size_bytes == job@.total_size
            &&& !m.done
            &&& tells_percent(
                m.progress_percent as int,
                m.copied_size_bytes as nat,
                m.total_size_bytes as nat,
            )
            &&& tells_pace(
                m.speed_bytes_per_sec,
                m.eta_seconds,
                m.copied_size_bytes as nat,
                (if m.copied_size_bytes < m.total_size_bytes {
                    m.total_size_bytes - m.copied_size_bytes
                } else {
                    0
                }) as nat,
                elapsed@,
            )
        }),
        turn.job@.copied_size == job@.copied_size + bytes,
        turn.job@.stage == (StageView::Copying { name }),
        turn.job@.next == job@.next,
        turn.action@ is CopyChunk,
{
    assert(turn@.reports.len() == turn.reports@.len());
    assert(turn@.reports[0] == turn.reports@[0]@);
    let m = turn.reports@[0];
    lemma_percent(m.copied_size_bytes as nat, m.total_size_bytes as nat);
    let left = (if m.copied_size_bytes < m.total_size_bytes {
        m.total_size_bytes - m.copied_size_bytes
    } else {
        0
    }) as nat;
    lemma_pace(
        m.copied_size_bytes as nat,
        left,
        elapsed@,
        m.speed_bytes_per_sec,
        m.eta_seconds,
    );
}

/// A file ends with an empty chunk, and with one that could not be read or written; none
/// of these counts.
pub proof fn files_end<P>(
    job: ImportJob<P>,
    name: Seq<char>,
    event: ImportEvent<P>,
    turn: ImportTurn<P>,
)
    requires
        job@.stage == (StageView::Copying { name }),
        event is ReadFailed || (event matches ImportEvent::ChunkRead { bytes, written, .. } && (
        bytes == 0 || !written)),
        call_ensures(ImportJob::<P>::step, (job, event), turn),
    ensures
        goes_on(job, turn, 0),
        turn.job@.copied_size == job@.copied_size,
{
    assert(turn@.reports.len() == turn.reports@.len());
    if turn.reports@.len() > 0 {
        assert(turn@.reports.last() == turn.reports@.last()@);
    }
}

/// A job that is cancelled stops without a word; a copy that was begun is removed.
pub proof fn cancelled_jobs_stop<P>(job: ImportJob<P>, turn: ImportTurn<P>)
    requires
        call_ensures(ImportJob::<P>::step, (job, ImportEvent::Cancelled), turn),
    ensures
        turn.reports@.len() == 0,
        turn.job@.stage is Stopped,
        job@.stage is Copying ==> turn.action@ is RemoveAndStop,
        !(job@.stage is Copying) ==> turn.action@ is Stop,
{
    assert(turn@.reports.len() == turn.reports@.len());
}

/// What an action asks for is what it holds.
pub proof fn actions_hold_what_they_ask_for(action: ImportAction)
    ensures
        match action {
            ImportAction::NextEntry => action@ is NextEntry,
            ImportAction::AskFreeSpace => action@ is AskFreeSpace,
            ImportAction::MakeDir { folders } => {
                &&& action@ is MakeDir
                &&& action@->folders.len() == folders@.len()
                &&& forall|i: int|
                    0 <= i < folders@.len() ==> #[trigger] action@->folders[i] == folders@[i]@
            },
            ImportAction::ProbeFile { index } => action@ == (ActionView::ProbeFile {
                index: index as int,
            }),
            ImportAction::ProbeName { name } => action@ == (ActionView::ProbeName { name: name@ }),
            ImportAction::MeasureFile { index } => action@ == (ActionView::MeasureFile {
                index: index as int,
            }),
            ImportAction::OpenFiles { index, target } => {
                &&& action@ is OpenFiles
                &&& action@->OpenFiles_index == index
                &&& target is None ==> action@->target is None
                &&& target matches Some(name) ==> action@->target == Some(name@)
            },
            ImportAction::CopyChunk => action@ is CopyChunk,
            ImportAction::RemoveAndStop => action@ is RemoveAndStop,
            ImportAction::Stop => action@ is Stop,
        },
{
}

/// Where an import stands is what its stage holds.
pub proof fn stages_hold_where_imports_stand(stage: Stage)
    ensures
        match stage {
            Stage::Walking => stage@ is Walking,
            Stage::CheckingSpace => stage@ is CheckingSpace,
            Stage::MakingDir => stage@ is MakingDir,
            Stage::Starting => stage@ is Starting,
            Stage::Measuring { name } => stage@ == (StageView::Measuring { name: name@ }),
            Stage::Renaming { file, counter } => {
                &&& stage@ is Renaming
                &&& stage@->counter == counter
                &&& stage@->file.shown == file.shown@
                &&& stage@->file.stem == file.stem@
                &&& stage@->file.extension == file.extension@
            },
            Stage::Opening { name } => stage@ == (StageView::Opening { name: name@ }),
            Stage::Copying { name } => stage@ == (StageView::Copying { name: name@ }),
            Stage::Stopped => stage@ is Stopped,
        },
{
}

/// A job tells its filter, its files, its sizes and its stage.
pub proof fn jobs_tell_how_they_stand<P>(
    job: ImportJob<P>,
    filter: &Filter,
    files: &Vec<P>,
    total: u64,
    copied: u64,
    stage: &Stage,
)
    requires
        call_ensures(ImportJob::<P>::filter, (&job,), filter),
        call_ensures(ImportJob::<P>::files, (&job,), files),
        call_ensures(ImportJob::<P>::total_size, (&job,), total),
        call_ensures(ImportJob::<P>::copied_size, (&job,), copied),
        call_ensures(ImportJob::<P>::stage, (&job,), stage),
    ensures
        filter@ == job@.filter,
        files@ == job@.files,
        total == job@.total_size,
        copied == job@.copied_size,
        stage@ == job@.stage,
{
}

// ---------------------------------------------------------------------------
// What is accepted
// ---------------------------------------------------------------------------

/// A job accepts every answer to what it asks for, as long as the sums fit the machine's
/// integers, and no other event.
pub proof fn answers_are_accepted<P>(job: ImportJob<P>, event: ImportEvent<P>, accepted: bool)
    requires
        call_ensures(ImportJob::<P>::accepts, (&job, &event), accepted),
    ensures
        event is Cancelled ==> accepted == (job@.stage is Walking || job@.stage is Starting
            || job@.stage is Copying),
        event is WalkEnded ==> accepted == (job@.stage is Walking),
        event is FreeSpace ==> accepted == (job@.stage is CheckingSpace),
        event is DirMade || event is DirFailed ==> accepted == (job@.stage is MakingDir),
        event is Probed ==> accepted == (job@.stage is Starting),
        event is Opened ==> accepted == (job@.stage is Opening),
        event is ReadFailed ==> accepted == (job@.stage is Copying),
        event matches ImportEvent::Walked { entry, .. } ==> {
            &&& accepted ==> job@.stage is Walking
            &&& job@.stage is Walking && (entry.metadata matches Some(info) ==> job@.total_size
                + info.len <= u64::MAX) ==> accepted
            &&& job@.stage is Walking && !job@.filter.selects(entry@) ==> accepted
            &&& job@.filter.selects(entry@) && job@.total_size + entry.metadata->Some_0.len
                > u64::MAX ==> !accepted
        },
        event matches ImportEvent::Measured { len } ==> accepted == (job@.stage is Measuring && (
        len matches Some(n) ==> job@.copied_size + n <= u64::MAX)),
        event matches ImportEvent::NameProbed { taken } ==> accepted == (job@.stage is Renaming
            && (taken ==> job@.stage->counter < i32::MAX)),
        event matches ImportEvent::ChunkRead { bytes, written, .. } ==> accepted == (job@.stage
            is Copying && (bytes > 0 && written ==> job@.copied_size + bytes <= u64::MAX)),
{
}

} // verus!
