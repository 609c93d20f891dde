//! What the window does, told of its functions: what each takes over, begins and shows.
use crate::app::{
    all_results, ended, last_status, scan_row, told_all, AppState, AppView, Buttons, ImportRequest,
    ImportUtilityApp, ScanRequest, SourceProgress, SourceProgressView,
};
use crate::app_laws::scan_messages_in_parts;
use crate::date::Date;
use crate::format::{format_eta, format_size, format_speed};
use crate::importer::{messages, ConflictResolution, ProgressMessage};
use crate::scan::{rows, ResultView, ScanMessage, ScanResult};
use crate::text::{list_entries, texts};
use crate::text_laws::{
    decimal_reads_back, is_blank, is_trimmed, reads_as, trimming_takes_off_white_space,
};
use vstd::prelude::*;

verus! {

/// The state of a window is what it holds, field by field.
pub proof fn windows_hold_their_state<P>(app: ImportUtilityApp<P>)
    ensures
        app@.sources.len() == app.sources@.len(),
        forall|i: int|
            0 <= i < app.sources@.len() ==> {
                let s = #[trigger] app.sources@[i];
                &&& app@.sources[i].path == s.path
                &&& app@.sources[i].shown == s.shown@
                &&& app@.sources[i].label == s.label@
            },
        app.destination is None ==> app@.destination is None,
        app.destination matches Some(d) ==> app@.destination == Some(d@),
        app@.project_label == app.project_label@,
        app@.conflict_res == app.conflict_res,
        app@.extensions_input == app.extensions_input@,
        app@.new_source_input == app.new_source_input@,
        app@.dest_input == app.dest_input@,
        app@.filter_start_date == app.filter_start_date,
        app@.start_date == app.start_date@,
        app@.filter_end_date == app.filter_end_date,
        app@.end_date == app.end_date@,
        app@.is_importing == app.is_importing,
        app@.progress_states.len() == app.progress_states@.len(),
        forall|i: int|
            0 <= i < app.progress_states@.len() ==> {
                let p = #[trigger] app.progress_states@[i];
                let v = app@.progress_states[i];
                &&& v.path == p.path@
                &&& v.status == p.status@
                &&& v.progress == p.progress
                &&& v.speed_bytes_per_sec == p.speed_bytes_per_sec
                &&& v.eta_seconds == p.eta_seconds
                &&& v.total_size_bytes == p.total_size_bytes
                &&& v.copied_size_bytes == p.copied_size_bytes
                &&& v.done == p.done
            },
        app@.is_scanning == app.is_scanning,
        app@.scan_results.len() == app.scan_results@.len(),
        forall|i: int|
            0 <= i < app.scan_results@.len() ==> {
                let r = #[trigger] app.scan_results@[i];
                let v = app@.scan_results[i];
                &&& v.camera_label == r.camera_label@
                &&& v.date == r.date@
                &&& v.extension == r.extension@
                &&& v.count == r.count
                &&& v.total_size == r.total_size
            },
        app@.scan_status == app.scan_status@,
        app@.active_scans == app.active_scans,
        app@.cancelled == app.cancelled,
{
}

// ---------------------------------------------------------------------------
// Opening and keeping
// ---------------------------------------------------------------------------

/// A window opens without sources, idle, with today as both days, and with what was kept:
/// or, where nothing was, without a destination and a project, skipping files whose names
/// are taken, with four extensions, and without a period.
pub proof fn window_opens_with_what_was_kept<P>(
    today: Date,
    stored: Option<AppState>,
    app: ImportUtilityApp<P>,
)
    requires
        call_ensures(ImportUtilityApp::<P>::new, (today, stored), app),
    ensures
        app@.sources.len() == 0,
        app@.new_source_input.len() == 0,
        app@.start_date == today@,
        app@.end_date == today@,
        !app@.is_importing,
        !app@.is_scanning,
        !app@.cancelled,
        app@.progress_states.len() == 0,
        app@.scan_results.len() == 0,
        app@.scan_status.len() == 0,
        app@.active_scans == 0,
        stored is None ==> {
            &&& app@.destination is None
            &&& app@.dest_input.len() == 0
            &&& app@.project_label.len() == 0
            &&& app@.conflict_res == ConflictResolution::Skip
            &&& app@.extensions_input == "mp4, mkv, nev, wav"@
            &&& !app@.filter_start_date
            &&& !app@.filter_end_date
        },
        stored matches Some(kept) ==> {
            &&& kept.destination is None ==> app@.destination is None && app@.dest_input.len() == 0
            &&& kept.destination matches Some(d) ==> app@.destination == Some(d@)
                && app@.dest_input == d@
            &&& app@.project_label == kept.project_label@
            &&& app@.conflict_res == kept.conflict_res
            &&& app@.extensions_input == kept.extensions_input@
            &&& app@.filter_start_date == kept.filter_start_date
            &&& app@.filter_end_date == kept.filter_end_date
        },
{
}

/// What a window keeps is its destination, its project, what to do with taken names, its
/// extensions, and whether there is a first and a last day.
pub proof fn window_keeps_its_settings<P>(app: ImportUtilityApp<P>, state: AppState)
    requires
        call_ensures(ImportUtilityApp::<P>::save, (&app,), state),
    ensures
        app.destination is None ==> state.destination is None,
        app.destination matches Some(d) ==> state.destination is Some
            && state.destination->Some_0@ == d@,
        state.project_label@ == app.project_label@,
        state.conflict_res == app.conflict_res,
        state.extensions_input@ == app.extensions_input@,
        state.filter_start_date == app.filter_start_date,
        state.filter_end_date == app.filter_end_date,
{
    assert(state@.destination == app@.destination);
    assert(state@.project_label == app@.project_label);
    assert(state@.extensions_input == app@.extensions_input);
}

// ---------------------------------------------------------------------------
// Settings
// ---------------------------------------------------------------------------

/// What the user types or picks is taken over while nothing is running, each where it
/// belongs, and changes nothing else.
pub proof fn typed_texts_are_taken_over<P>(
    a: &mut ImportUtilityApp<P>,
    b: &mut ImportUtilityApp<P>,
    c: &mut ImportUtilityApp<P>,
    d: &mut ImportUtilityApp<P>,
    e: &mut ImportUtilityApp<P>,
    text: String,
)
    requires
        call_ensures(ImportUtilityApp::<P>::set_new_source_input, (a, text), ()),
        call_ensures(ImportUtilityApp::<P>::set_dest_input, (b, text), ()),
        call_ensures(ImportUtilityApp::<P>::set_project_label, (c, text), ()),
        call_ensures(ImportUtilityApp::<P>::set_extensions_input, (d, text), ()),
        call_ensures(ImportUtilityApp::<P>::pick_destination, (e, text), ()),
    ensures
        final(a)@ == if old(a)@.is_importing || old(a)@.is_scanning {
            old(a)@
        } else {
            AppView { new_source_input: text@, ..old(a)@ }
        },
        final(b)@ == if old(b)@.is_importing || old(b)@.is_scanning {
            old(b)@
        } else {
            AppView { dest_input: text@, ..old(b)@ }
        },
        final(c)@ == if old(c)@.is_importing || old(c)@.is_scanning {
            old(c)@
        } else {
            AppView { project_label: text@, ..old(c)@ }
        },
        final(d)@ == if old(d)@.is_importing || old(d)@.is_scanning {
            old(d)@
        } else {
            AppView { extensions_input: text@, ..old(d)@ }
        },
        final(e)@ == if old(e)@.is_importing || old(e)@.is_scanning {
            old(e)@
        } else {
            AppView { dest_input: text@, destination: Some(text@), ..old(e)@ }
        },
{
}

/// A day is taken over while nothing is running and such a day counts, each on its own;
/// whether it counts, and what to do with taken names, is taken over at any time.
pub proof fn days_and_choices_are_taken_over<P>(
    a: &mut ImportUtilityApp<P>,
    b: &mut ImportUtilityApp<P>,
    c: &mut ImportUtilityApp<P>,
    d: &mut ImportUtilityApp<P>,
    e: &mut ImportUtilityApp<P>,
    date: Date,
    on: bool,
    choice: ConflictResolution,
)
    requires
        call_ensures(ImportUtilityApp::<P>::set_start_date, (a, date), ()),
        call_ensures(ImportUtilityApp::<P>::set_end_date, (b, date), ()),
        call_ensures(ImportUtilityApp::<P>::set_filter_start_date, (c, on), ()),
        call_ensures(ImportUtilityApp::<P>::set_filter_end_date, (d, on), ()),
        call_ensures(ImportUtilityApp::<P>::set_conflict_res, (e, choice), ()),
    ensures
        final(a)@ == if old(a)@.is_importing || old(a)@.is_scanning || !old(a)@.filter_start_date {
            old(a)@
        } else {
            AppView { start_date: date@, ..old(a)@ }
        },
        final(b)@ == if old(b)@.is_importing || old(b)@.is_scanning || !old(b)@.filter_end_date {
            old(b)@
        } else {
            AppView { end_date: date@, ..old(b)@ }
        },
        final(c)@ == (AppView { filter_start_date: on, ..old(c)@ }),
        final(d)@ == (AppView { filter_end_date: on, ..old(d)@ }),
        final(e)@ == (AppView { conflict_res: choice, ..old(e)@ }),
{
}

/// The destination is what the user has typed, without the white space around it, if
/// there is anything else; nothing else changes.
pub proof fn destination_is_what_is_typed<P>(app: &mut ImportUtilityApp<P>)
    requires
        call_ensures(ImportUtilityApp::<P>::sync_destination, (app,), ()),
    ensures
        final(app)@ == (AppView { destination: final(app)@.destination, ..old(app)@ }),
        final(app)@.destination is None <==> is_blank(old(app)@.dest_input),
        final(app)@.destination matches Some(d) ==> is_trimmed(d, old(app)@.dest_input),
{
    trimming_takes_off_white_space(old(app)@.dest_input);
}

/// What is running is asked to stop; as the window closes, so is everything.
pub proof fn stopping_is_asked_for<P>(a: &mut ImportUtilityApp<P>, b: &mut ImportUtilityApp<P>)
    requires
        call_ensures(ImportUtilityApp::<P>::cancel, (a,), ()),
        call_ensures(ImportUtilityApp::<P>::on_exit, (b,), ()),
    ensures
        final(a)@ == (AppView {
            cancelled: old(a)@.cancelled || old(a)@.is_importing || old(a)@.is_scanning,
            ..old(a)@
        }),
        final(b)@ == (AppView { cancelled: true, ..old(b)@ }),
{
}

// ---------------------------------------------------------------------------
// Sources
// ---------------------------------------------------------------------------

/// A source is taken off the list while nothing is running; the others keep their order.
pub proof fn removed_sources_are_gone<P>(app: &mut ImportUtilityApp<P>, index: usize)
    requires
        call_ensures(ImportUtilityApp::<P>::remove_source, (app, index), ()),
    ensures
        old(app)@.is_importing || old(app)@.is_scanning || index >= old(app)@.sources.len()
            ==> final(app)@ == old(app)@,
        !old(app)@.is_importing && !old(app)@.is_scanning && index < old(app)@.sources.len() ==> {
            &&& final(app)@ == (AppView { sources: final(app)@.sources, ..old(app)@ })
            &&& final(app)@.sources.len() == old(app)@.sources.len() - 1
            &&& forall|i: int|
                0 <= i < index ==> #[trigger] final(app)@.sources[i] == old(app)@.sources[i]
            &&& forall|i: int|
                index <= i < final(app)@.sources.len() ==> #[trigger] final(app)@.sources[i]
                    == old(app)@.sources[i + 1]
        },
{
}

/// A source gets another folder name while nothing is running; its path and the other
/// sources stay.
pub proof fn labels_are_taken_over<P>(app: &mut ImportUtilityApp<P>, index: usize, label: String)
    requires
        call_ensures(ImportUtilityApp::<P>::set_label, (app, index, label), ()),
    ensures
        old(app)@.is_importing || old(app)@.is_scanning || index >= old(app)@.sources.len()
            ==> final(app)@ == old(app)@,
        !old(app)@.is_importing && !old(app)@.is_scanning && index < old(app)@.sources.len() ==> {
            let (before, after) = (old(app)@.sources, final(app)@.sources);
            &&& final(app)@ == (AppView { sources: after, ..old(app)@ })
            &&& after.len() == before.len()
            &&& after[index as int].label == label@
            &&& after[index as int].path == before[index as int].path
            &&& after[index as int].shown == before[index as int].shown
            &&& forall|i: int|
                0 <= i < after.len() && i != index ==> #[trigger] after[i] == before[i]
        },
{
}

/// A path that is typed can be added while nothing is running and it is more than white
/// space; that around it is left off.
pub proof fn typed_paths_can_be_added<P>(app: ImportUtilityApp<P>, path: Option<String>)
    requires
        call_ensures(ImportUtilityApp::<P>::typed_source, (&app,), path),
    ensures
        path is Some <==> !app@.is_importing && !app@.is_scanning && !is_blank(
            app@.new_source_input,
        ),
        path matches Some(p) ==> is_trimmed(p@, app@.new_source_input),
{
    trimming_takes_off_white_space(app@.new_source_input);
}

/// A source is added at the end of the list with its path, how it is shown and its label,
/// while nothing is running and `==` finds no source at its path; else nothing changes.
pub proof fn sources_are_added_at_the_end<P: PartialEq>(
    app: &mut ImportUtilityApp<P>,
    path: P,
    shown: String,
    label: String,
)
    requires
        call_ensures(ImportUtilityApp::<P>::add_source, (app, path, shown, label), ()),
    ensures
        old(app)@.is_importing || old(app)@.is_scanning ==> final(app)@ == old(app)@,
        ({
            let (before, after) = (old(app)@.sources, final(app)@.sources);
            ||| final(app)@ == old(app)@ && (old(app)@.is_importing || old(app)@.is_scanning
                || exists|i: int|
                0 <= i < before.len() && call_ensures(
                    P::eq,
                    (&(#[trigger] before[i]).path, &path),
                    true,
                ))
            ||| {
                &&& final(app)@ == (AppView { sources: after, ..old(app)@ })
                &&& after.len() == before.len() + 1
                &&& forall|i: int| 0 <= i < before.len() ==> #[trigger] after[i] == before[i]
                &&& after.last().path == path
                &&& after.last().shown == shown@
                &&& after.last().label == label@
                &&& forall|i: int|
                    0 <= i < before.len() ==> call_ensures(
                        P::eq,
                        (&(#[trigger] before[i]).path, &path),
                        false,
                    )
            }
        }),
{
}

/// A typed source is added in the same way, if one can be, and what was typed is cleared.
pub proof fn typed_sources_are_added<P: PartialEq>(
    app: &mut ImportUtilityApp<P>,
    path: P,
    shown: String,
    label: String,
)
    requires
        call_ensures(ImportUtilityApp::<P>::add_typed_source, (app, path, shown, label), ()),
    ensures
        ({
            let (before, after) = (old(app)@.sources, final(app)@.sources);
            let added = !old(app)@.is_importing && !old(app)@.is_scanning && !is_blank(
                old(app)@.new_source_input,
            );
            &&& !added ==> final(app)@ == old(app)@
            &&& added ==> final(app)@ == (AppView {
                sources: after,
                new_source_input: seq![],
                ..old(app)@
            })
            &&& after == before || {
                &&& after.len() == before.len() + 1
                &&& forall|i: int| 0 <= i < before.len() ==> #[trigger] after[i] == before[i]
                &&& after.last().path == path
                &&& after.last().shown == shown@
                &&& after.last().label == label@
                &&& forall|i: int|
                    0 <= i < before.len() ==> call_ensures(
                        P::eq,
                        (&(#[trigger] before[i]).path, &path),
                        false,
                    )
            }
            &&& added && after == before ==> exists|i: int|
                0 <= i < before.len() && call_ensures(
                    P::eq,
                    (&(#[trigger] before[i]).path, &path),
                    true,
                )
        }),
{
    trimming_takes_off_white_space(old(app)@.new_source_input);
    let (before, after) = (old(app)@.sources, final(app)@.sources);
    if after.len() == before.len() + 1 {
        assert(after != before);
    }
}

// ---------------------------------------------------------------------------
// Beginning scans and imports
// ---------------------------------------------------------------------------

/// The day that a request has: the one that is set, if such a day counts.
pub open spec fn is_day_set(asked: Option<Date>, counts: bool, date: (int, int, int)) -> bool {
    &&& counts ==> asked is Some && asked->Some_0@ == date
    &&& !counts ==> asked is None
}

/// A scan of every source is begun, in their order, with the label of the source, the
/// extensions of the list, and the first and the last day that are set, each on its own
/// and if it counts. The window waits for as many scans, and forgets what it had found.
pub proof fn scans_are_begun_as_set<P>(app: &mut ImportUtilityApp<P>, requests: Vec<ScanRequest>)
    requires
        call_ensures(ImportUtilityApp::<P>::start_scan, (app,), requests),
    ensures
        requests@.len() == old(app)@.sources.len(),
        forall|i: int|
            0 <= i < requests@.len() ==> {
                let r = #[trigger] requests@[i];
                &&& r.source == i
                &&& r.camera_label@ == old(app)@.sources[i].label
                &&& texts(r.extensions@) == list_entries(old(app)@.extensions_input)
                &&& is_day_set(r.start_date, old(app)@.filter_start_date, old(app)@.start_date)
                &&& is_day_set(r.end_date, old(app)@.filter_end_date, old(app)@.end_date)
            },
        old(app)@.sources.len() == 0 ==> final(app)@ == old(app)@,
        old(app)@.sources.len() > 0 ==> final(app)@ == (AppView {
            is_scanning: true,
            scan_results: seq![],
            scan_status: "Starting scan..."@,
            active_scans: old(app)@.sources.len() as int,
            cancelled: false,
            ..old(app)@
        }),
{
    let views = requests@.map_values(|r: ScanRequest| r@);
    assert(views.len() == requests@.len());
    assert forall|i: int| 0 <= i < requests@.len() implies {
        let r = #[trigger] requests@[i];
        &&& r.source == i
        &&& r.camera_label@ == old(app)@.sources[i].label
        &&& texts(r.extensions@) == list_entries(old(app)@.extensions_input)
        &&& is_day_set(r.start_date, old(app)@.filter_start_date, old(app)@.start_date)
        &&& is_day_set(r.end_date, old(app)@.filter_end_date, old(app)@.end_date)
    } by {
        assert(views[i] == requests@[i]@);
    }
}

/// Where there are sources, a destination and a project that is more than white space, an
/// import of every source is begun, in their order, with the destination, the project,
/// the label of the source, the extensions of the list, the first and the last day that
/// are set, each on its own and if it counts, and what to do with taken names. The window
/// shows each as waiting. Else nothing is begun, and nothing changes.
pub proof fn imports_are_begun_as_set<P>(
    app: &mut ImportUtilityApp<P>,
    requests: Vec<ImportRequest>,
)
    requires
        call_ensures(ImportUtilityApp::<P>::start_import, (app,), requests),
    ensures
        ({
            let ready = old(app)@.sources.len() > 0 && old(app)@.destination is Some && !is_blank(
                old(app)@.project_label,
            );
            &&& !ready ==> requests@.len() == 0 && final(app)@ == old(app)@
            &&& ready ==> {
                &&& requests@.len() == old(app)@.sources.len()
                &&& final(app)@ == (AppView {
                    is_importing: true,
                    progress_states: final(app)@.progress_states,
                    cancelled: false,
                    ..old(app)@
                })
                &&& final(app)@.progress_states.len() == old(app)@.sources.len()
            }
        }),
        forall|i: int|
            0 <= i < requests@.len() ==> {
                let r = #[trigger] requests@[i];
                &&& r.source == i
                &&& old(app)@.destination == Some(r.destination@)
                &&& r.project_label@ == old(app)@.project_label
                &&& r.camera_label@ == old(app)@.sources[i].label
                &&& texts(r.extensions@) == list_entries(old(app)@.extensions_input)
                &&& is_day_set(r.start_date, old(app)@.filter_start_date, old(app)@.start_date)
                &&& is_day_set(r.end_date, old(app)@.filter_end_date, old(app)@.end_date)
                &&& r.conflict_res == old(app)@.conflict_res
            },
        forall|i: int|
            0 <= i < requests@.len() ==> {
                let p = #[trigger] final(app)@.progress_states[i];
                &&& p.path == old(app)@.sources[i].shown
                &&& p.status == "Waiting..."@
                &&& p.progress == 0
                &&& p.speed_bytes_per_sec == 0
                &&& p.eta_seconds is None
                &&& p.total_size_bytes == 0
                &&& p.copied_size_bytes == 0
                &&& !p.done
            },
{
    trimming_takes_off_white_space(old(app)@.project_label);
    let views = requests@.map_values(|r: ImportRequest| r@);
    assert(views.len() == requests@.len());
    assert forall|i: int| 0 <= i < requests@.len() implies {
        let r = #[trigger] requests@[i];
        &&& r.source == i
        &&& old(app)@.destination == Some(r.destination@)
        &&& r.project_label@ == old(app)@.project_label
        &&& r.camera_label@ == old(app)@.sources[i].label
        &&& texts(r.extensions@) == list_entries(old(app)@.extensions_input)
        &&& is_day_set(r.start_date, old(app)@.filter_start_date, old(app)@.start_date)
        &&& is_day_set(r.end_date, old(app)@.filter_end_date, old(app)@.end_date)
        &&& r.conflict_res == old(app)@.conflict_res
    } by {
        assert(views[i] == requests@[i]@);
    }
}

/// A last day that is set while it counts is the last day of every import and scan that is
/// begun then, whatever the first day.
pub proof fn last_day_set_is_asked_for<P>(
    a: &mut ImportUtilityApp<P>,
    date: Date,
    b: &mut ImportUtilityApp<P>,
    imports: Vec<ImportRequest>,
    c: &mut ImportUtilityApp<P>,
    scans: Vec<ScanRequest>,
)
    requires
        !old(a)@.is_importing,
        !old(a)@.is_scanning,
        old(a)@.filter_end_date,
        call_ensures(ImportUtilityApp::<P>::set_end_date, (a, date), ()),
        old(b)@ == final(a)@,
        call_ensures(ImportUtilityApp::<P>::start_import, (b,), imports),
        old(c)@ == final(a)@,
        call_ensures(ImportUtilityApp::<P>::start_scan, (c,), scans),
    ensures
        forall|i: int|
            0 <= i < imports@.len() ==> (#[trigger] imports@[i]).end_date is Some
                && imports@[i].end_date->Some_0@ == date@,
        forall|i: int|
            0 <= i < scans@.len() ==> (#[trigger] scans@[i]).end_date is Some
                && scans@[i].end_date->Some_0@ == date@,
{
    imports_are_begun_as_set(b, imports);
    scans_are_begun_as_set(c, scans);
}

/// A first day that is set while it counts is the first day of every import and scan that
/// is begun then, whatever the last day.
pub proof fn first_day_set_is_asked_for<P>(
    a: &mut ImportUtilityApp<P>,
    date: Date,
    b: &mut ImportUtilityApp<P>,
    imports: Vec<ImportRequest>,
    c: &mut ImportUtilityApp<P>,
    scans: Vec<ScanRequest>,
)
    requires
        !old(a)@.is_importing,
        !old(a)@.is_scanning,
        old(a)@.filter_start_date,
        call_ensures(ImportUtilityApp::<P>::set_start_date, (a, date), ()),
        old(b)@ == final(a)@,
        call_ensures(ImportUtilityApp::<P>::start_import, (b,), imports),
        old(c)@ == final(a)@,
        call_ensures(ImportUtilityApp::<P>::start_scan, (c,), scans),
    ensures
        forall|i: int|
            0 <= i < imports@.len() ==> (#[trigger] imports@[i]).start_date is Some
                && imports@[i].start_date->Some_0@ == date@,
        forall|i: int|
            0 <= i < scans@.len() ==> (#[trigger] scans@[i]).start_date is Some
                && scans@[i].start_date->Some_0@ == date@,
{
    imports_are_begun_as_set(b, imports);
    scans_are_begun_as_set(c, scans);
}

// ---------------------------------------------------------------------------
// Messages
// ---------------------------------------------------------------------------

/// Whether a source is shown as a message tells, with its path as it was.
pub open spec fn is_shown_as(
    after: SourceProgressView,
    before: SourceProgressView,
    m: ProgressMessage,
) -> bool {
    &&& after.path == before.path
    &&& after.status == m.status@
    &&& after.progress == m.progress_percent
    &&& after.speed_bytes_per_sec == m.speed_bytes_per_sec
    &&& after.eta_seconds == m.eta_seconds
    &&& after.total_size_bytes == m.total_size_bytes
    &&& after.copied_size_bytes == m.copied_size_bytes
    &&& after.done == m.done
}

/// While an import is running, each source is shown as the last message about it tells;
/// one that none is about stays as it was. The import is running as long as some source
/// is not done. Nothing else changes; and nothing at all while none is running.
pub proof fn imports_are_shown_as_told<P>(
    app: &mut ImportUtilityApp<P>,
    told: Vec<ProgressMessage>,
)
    requires
        call_ensures(ImportUtilityApp::<P>::receive_progress, (app, told), ()),
    ensures
        !old(app)@.is_importing ==> final(app)@ == old(app)@,
        old(app)@.is_importing ==> {
            let (before, after) = (old(app)@.progress_states, final(app)@.progress_states);
            &&& final(app)@ == (AppView {
                progress_states: after,
                is_importing: final(app)@.is_importing,
                ..old(app)@
            })
            &&& after.len() == before.len()
            &&& final(app)@.is_importing <==> exists|i: int|
                0 <= i < after.len() && !(#[trigger] after[i]).done
            &&& forall|i: int|
                0 <= i < after.len() && (forall|k: int|
                    0 <= k < told@.len() ==> (#[trigger] told@[k]).source_index != i)
                    ==> #[trigger] after[i] == before[i]
            &&& forall|i: int, k: int|
                0 <= i < after.len() && 0 <= k < told@.len() && told@[k].source_index == i && (
                forall|j: int| k < j < told@.len() ==> (#[trigger] told@[j]).source_index != i)
                    ==> is_shown_as(#[trigger] after[i], before[i], #[trigger] told@[k])
        },
{
    if old(app)@.is_importing {
        let (before, after) = (old(app)@.progress_states, final(app)@.progress_states);
        lemma_told(before, told@);
        assert(after == told_all(before, messages(told@)));
    }
}

proof fn lemma_told(before: Seq<SourceProgressView>, told: Seq<ProgressMessage>)
    ensures
        ({
            let after = told_all(before, messages(told));
            &&& after.len() == before.len()
            &&& forall|i: int|
                0 <= i < after.len() && (forall|k: int|
                    0 <= k < told.len() ==> (#[trigger] told[k]).source_index != i)
                    ==> #[trigger] after[i] == before[i]
            &&& forall|i: int, k: int|
                0 <= i < after.len() && 0 <= k < told.len() && told[k].source_index == i && (
                forall|j: int| k < j < told.len() ==> (#[trigger] told[j]).source_index != i)
                    ==> is_shown_as(#[trigger] after[i], before[i], #[trigger] told[k])
        }),
    decreases told.len(),
{
    if told.len() > 0 {
        let rest = told.drop_last();
        let n = told.len() - 1;
        lemma_told(before, rest);
        assert(messages(told).drop_last() =~= messages(rest));
        assert(messages(told).last() == told[n]@);
        let earlier = told_all(before, messages(rest));
        let after = told_all(before, messages(told));
        assert forall|i: int|
            0 <= i < after.len() && (forall|k: int|
                0 <= k < told.len() ==> (#[trigger] told[k]).source_index
                    != i) implies #[trigger] after[i] == before[i] by {
            assert(told[n].source_index != i);
            assert forall|k: int| 0 <= k < rest.len() implies (#[trigger] rest[k]).source_index
                != i by {
                assert(told[k].source_index != i);
            }
            assert(earlier[i] == before[i]);
        }
        assert forall|i: int, k: int|
            0 <= i < after.len() && 0 <= k < told.len() && told[k].source_index == i && (
            forall|j: int| k < j < told.len() ==> (#[trigger] told[j]).source_index
                != i) implies is_shown_as(#[trigger] after[i], before[i], #[trigger] told[k]) by {
            lemma_paths_stay(before, rest, i);
            if k < n {
                assert(told[n].source_index != i);
                assert(rest[k] == told[k]);
                assert forall|j: int| k < j < rest.len() implies (#[trigger] rest[j]).source_index
                    != i by {
                    assert(told[j].source_index != i);
                }
                assert(is_shown_as(earlier[i], before[i], rest[k]));
            }
        }
    }
}

proof fn lemma_paths_stay(before: Seq<SourceProgressView>, told: Seq<ProgressMessage>, i: int)
    requires
        0 <= i < before.len(),
    ensures
        told_all(before, messages(told)).len() == before.len(),
        told_all(before, messages(told))[i].path == before[i].path,
    decreases told.len(),
{
    if told.len() > 0 {
        lemma_paths_stay(before, told.drop_last(), i);
        assert(messages(told).drop_last() =~= messages(told.drop_last()));
    }
}

/// How many of some messages tell that a scan has ended.
pub open spec fn ends_told(told: Seq<ScanMessage>) -> nat
    decreases told.len(),
{
    if told.len() == 0 {
        0
    } else if told[0].is_done {
        1 + ends_told(told.drop_first())
    } else {
        ends_told(told.drop_first())
    }
}

/// The rows of the messages that tell that a scan has ended, one after the other.
pub open spec fn rows_told(told: Seq<ScanMessage>) -> Seq<ResultView>
    decreases told.len(),
{
    if told.len() == 0 {
        seq![]
    } else if told[0].is_done {
        rows(told[0].results@) + rows_told(told.drop_first())
    } else {
        rows_told(told.drop_first())
    }
}

/// Whether a status is that of the last message of a scan that goes on, or the one from
/// before where there is none.
pub open spec fn is_last_status(
    status: Seq<char>,
    before: Seq<char>,
    told: Seq<ScanMessage>,
) -> bool {
    ||| status == before && forall|k: int| 0 <= k < told.len() ==> (#[trigger] told[k]).is_done
    ||| exists|k: int|
        0 <= k < told.len() && !(#[trigger] told[k]).is_done && status == told[k].status@ && forall|
            j: int,
        |
            k < j < told.len() ==> (#[trigger] told[j]).is_done
}

/// While scans are running, each that ends adds its rows behind those that there are, and
/// is not waited for any more; the last that goes on tells the status. Once none is waited
/// for, the scan is complete. Nothing else changes; and nothing at all while none is
/// running.
pub proof fn scans_are_shown_as_told<P>(app: &mut ImportUtilityApp<P>, told: Vec<ScanMessage>)
    requires
        0 <= old(app)@.active_scans,
        call_ensures(ImportUtilityApp::<P>::receive_scans, (app, told), ()),
    ensures
        !old(app)@.is_scanning ==> final(app)@ == old(app)@,
        old(app)@.is_scanning ==> {
            let ended = ends_told(told@);
            let left = if ended < old(app)@.active_scans {
                old(app)@.active_scans - ended
            } else {
                0
            };
            &&& final(app)@ == (AppView {
                active_scans: left,
                is_scanning: left > 0,
                scan_results: old(app)@.scan_results + rows_told(told@),
                scan_status: final(app)@.scan_status,
                ..old(app)@
            })
            &&& left == 0 ==> final(app)@.scan_status == "Scan complete."@
            &&& left > 0 ==> is_last_status(
                final(app)@.scan_status,
                old(app)@.scan_status,
                told@,
            )
        },
{
    lemma_scans_told(old(app)@.scan_status, told@);
}

proof fn lemma_scans_told(before: Seq<char>, told: Seq<ScanMessage>)
    ensures
        ({
            let views = told.map_values(|m: ScanMessage| m@);
            &&& ended(views) == ends_told(told)
            &&& all_results(views) == rows_told(told)
            &&& is_last_status(last_status(before, views), before, told)
        }),
    decreases told.len(),
{
    let f = |m: ScanMessage| m@;
    let views = told.map_values(f);
    if told.len() > 0 {
        let rest = told.drop_last();
        let last = told.last();
        lemma_scans_told(before, rest);
        assert(views.drop_last() =~= rest.map_values(f));
        assert(views.last() == last@);
        lemma_told_last(told);
        let status = last_status(before, rest.map_values(f));
        if last.is_done {
            if forall|k: int| 0 <= k < rest.len() ==> (#[trigger] rest[k]).is_done {
                assert forall|k: int| 0 <= k < told.len() implies (#[trigger] told[k]).is_done by {
                    if k < rest.len() {
                        assert(rest[k].is_done);
                    }
                }
                assert(status == before);
            } else {
                let k = choose|k: int|
                    0 <= k < rest.len() && !(#[trigger] rest[k]).is_done && status
                        == rest[k].status@ && forall|j: int|
                        k < j < rest.len() ==> (#[trigger] rest[j]).is_done;
                assert(!told[k].is_done);
                assert forall|j: int| k < j < told.len() implies (#[trigger] told[j]).is_done by {
                    if j < rest.len() {
                        assert(rest[j].is_done);
                    }
                }
            }
        } else {
            assert(!told[told.len() - 1].is_done);
        }
    }
}

proof fn lemma_told_last(told: Seq<ScanMessage>)
    requires
        told.len() > 0,
    ensures
        ends_told(told) == ends_told(told.drop_last()) + if told.last().is_done {
            1nat
        } else {
            0
        },
        rows_told(told) == rows_told(told.drop_last()) + if told.last().is_done {
            rows(told.last().results@)
        } else {
            Seq::<ResultView>::empty()
        },
    decreases told.len(),
{
    let (rest, tail) = (told.drop_last(), told.drop_first());
    let more = if told.last().is_done {
        rows(told.last().results@)
    } else {
        Seq::<ResultView>::empty()
    };
    if told.len() == 1 {
        assert(tail =~= seq![]);
        assert(rest =~= seq![]);
        assert(rows_told(told) =~= rows_told(rest) + more);
    } else {
        lemma_told_last(tail);
        assert(tail.drop_last() =~= rest.drop_first());
        assert(rows_told(told) =~= rows_told(rest) + more);
    }
}

/// While scans are running, messages may be handed over at once or in two parts.
pub proof fn scans_are_told_in_parts<P>(
    a: &mut ImportUtilityApp<P>,
    first: Vec<ScanMessage>,
    b: &mut ImportUtilityApp<P>,
    second: Vec<ScanMessage>,
    c: &mut ImportUtilityApp<P>,
    both: Vec<ScanMessage>,
)
    requires
        old(a)@.active_scans >= 0,
        call_ensures(ImportUtilityApp::<P>::receive_scans, (a, first), ()),
        old(b)@ == final(a)@,
        final(a)@.is_scanning,
        call_ensures(ImportUtilityApp::<P>::receive_scans, (b, second), ()),
        old(c)@ == old(a)@,
        both@ == first@ + second@,
        call_ensures(ImportUtilityApp::<P>::receive_scans, (c, both), ()),
    ensures
        final(c)@ == final(b)@,
{
    let f = |m: ScanMessage| m@;
    assert(both@.map_values(f) =~= first@.map_values(f) + second@.map_values(f));
    if old(a)@.is_scanning {
        scan_messages_in_parts(
            old(a)@,
            first@.map_values(f),
            second@.map_values(f),
        );
    }
}

// ---------------------------------------------------------------------------
// What is shown
// ---------------------------------------------------------------------------

/// A row of scan results shows its camera, its day, its extension, how many files there
/// are, and their size as sizes are shown.
pub proof fn rows_show_their_results(result: ScanResult, cells: Vec<String>, size: String)
    requires
        call_ensures(scan_row, (&result,), cells),
        call_ensures(format_size, (result.total_size,), size),
    ensures
        cells@.len() == 5,
        cells@[0]@ == result.camera_label@,
        cells@[1]@ == result.date@,
        cells@[2]@ == result.extension@,
        reads_as(cells@[3]@, result.count as int),
        cells@[4]@ == size@,
{
    decimal_reads_back(result.count as nat);
    assert(texts(cells@).len() == cells@.len());
    assert(forall|i: int| 0 <= i < cells@.len() ==> texts(cells@)[i] == cells@[i]@);
    assert(texts(cells@)[0] == cells@[0]@ && texts(cells@)[1] == cells@[1]@);
    assert(texts(cells@)[2] == cells@[2]@ && texts(cells@)[3] == cells@[3]@);
    assert(texts(cells@)[4] == cells@[4]@);
}

/// A source that is not done and has a percentage above zero shows the size copied, the
/// size in all, the speed and the remaining time, each as it is shown elsewhere; another
/// shows none.
pub proof fn sources_under_way_show_details(
    source: SourceProgress,
    line: Option<String>,
    copied: String,
    total: String,
    speed: String,
    eta: String,
)
    requires
        call_ensures(SourceProgress::detail, (&source,), line),
        call_ensures(format_size, (source.copied_size_bytes,), copied),
        call_ensures(format_size, (source.total_size_bytes,), total),
        call_ensures(format_speed, (source.speed_bytes_per_sec,), speed),
        call_ensures(format_eta, (source.eta_seconds,), eta),
    ensures
        line is Some <==> !source.done && 0 < source.progress <= 0x7f80_0000,
        line matches Some(text) ==> text@ == copied@ + " / "@ + total@ + " | "@ + speed@ + " | "@
            + eta@,
{
}

/// While something is running it can only be stopped; else a scan can be begun if there
/// are sources, and an import if there are also a destination and a project.
pub proof fn buttons_offer_what_can_be_done<P>(app: ImportUtilityApp<P>, buttons: Buttons)
    requires
        call_ensures(ImportUtilityApp::<P>::buttons, (&app,), buttons),
    ensures
        ({
            let running = app.is_importing || app.is_scanning;
            &&& buttons.cancel == running
            &&& buttons.scan == (!running && app.sources@.len() > 0)
            &&& buttons.import == (!running && app.sources@.len() > 0 && app.destination is Some
                && !is_blank(app.project_label@))
        }),
{
    trimming_takes_off_white_space(app.project_label@);
    assert(app@.sources.len() == app.sources@.len());
}

/// Results are shown while a scan is running and as long as there are any; imports as long
/// as there are any. What can be begun, and whether something is running, is told so.
pub proof fn window_shows_what_there_is<P>(
    app: ImportUtilityApp<P>,
    scans: bool,
    imports: bool,
    busy: bool,
    can_scan: bool,
    can_import: bool,
)
    requires
        call_ensures(ImportUtilityApp::<P>::shows_scans, (&app,), scans),
        call_ensures(ImportUtilityApp::<P>::shows_progress, (&app,), imports),
        call_ensures(ImportUtilityApp::<P>::busy, (&app,), busy),
        call_ensures(ImportUtilityApp::<P>::ready_to_scan, (&app,), can_scan),
        call_ensures(ImportUtilityApp::<P>::ready_to_start, (&app,), can_import),
    ensures
        scans == (app.is_scanning || app.scan_results@.len() > 0),
        imports == (app.progress_states@.len() > 0),
        busy == (app.is_importing || app.is_scanning),
        can_scan == (app.sources@.len() > 0),
        can_import == (app.sources@.len() > 0 && app.destination is Some && !is_blank(
            app.project_label@,
        )),
{
    trimming_takes_off_white_space(app.project_label@);
    assert(app@.sources.len() == app.sources@.len());
    assert(app@.scan_results.len() == app.scan_results@.len());
    assert(app@.progress_states.len() == app.progress_states@.len());
}

} // verus!
