//! What holds of the window.
use crate::app::{
    all_results, ended, last_status, told_all, told_apart, AppStateView, AppView, ScanMessageView,
    SourceProgressView, SourceView,
};
use crate::date::Ymd;
use crate::importer::ProgressView;
use crate::text::{trim, trim_is_idempotent};
use vstd::prelude::*;
use vstd::std_specs::cmp::PartialEqSpec;

verus! {

// ---------------------------------------------------------------------------
// What is kept
// ---------------------------------------------------------------------------

/// A window that opens with what another kept keeps the same.
pub proof fn kept_state_survives<P>(app: AppView<P>, today: Ymd)
    ensures
        AppView::<P>::opened(today, Some(app.kept())).kept() == app.kept(),
{
}

/// So does it once it has taken over the destination that it shows, if the one before
/// had done so.
pub proof fn kept_destination_survives<P>(app: AppView<P>, today: Ymd)
    ensures
        AppView::<P>::opened(today, Some(app.synced().kept())).synced().kept()
            == app.synced().kept(),
{
    trim_is_idempotent(app.dest_input);
    assert(trim(Seq::<char>::empty()) =~= seq![]);
}

/// A window opens with nothing running and no source.
pub proof fn opens_idle<P>(today: Ymd, stored: Option<AppStateView>)
    ensures
        !AppView::<P>::opened(today, stored).busy(),
        !AppView::<P>::opened(today, stored).ready_to_scan(),
        !AppView::<P>::opened(today, stored).ready_to_start(),
{
}

/// While something is running, nothing that the user types, picks, adds or removes is
/// taken over.
pub proof fn nothing_is_edited_while_busy<P>(
    app: AppView<P>,
    edited: AppView<P>,
    index: int,
    label: Seq<char>,
)
    requires
        app.busy(),
    ensures
        app.unless_busy(edited) == app,
        app.without_source(index) == app,
        app.with_label(index, label) == app,
        app.typed_source() is None,
{
}

// ---------------------------------------------------------------------------
// Messages of imports
// ---------------------------------------------------------------------------

/// Messages change no source but those they name, and no number of sources.
pub proof fn only_named_sources_change(
    states: Seq<SourceProgressView>,
    told: Seq<ProgressView>,
    i: int,
)
    requires
        0 <= i < states.len(),
        forall|k: int| 0 <= k < told.len() ==> (#[trigger] told[k]).source_index != i,
    ensures
        told_all(states, told).len() == states.len(),
        told_all(states, told)[i] == states[i],
    decreases told.len(),
{
    if told.len() > 0 {
        assert forall|k: int| 0 <= k < told.drop_last().len() implies (
        #[trigger] told.drop_last()[k]).source_index != i by {
            assert(told.drop_last()[k] == told[k]);
        }
        only_named_sources_change(states, told.drop_last(), i);
        assert(told.last() == told[told.len() - 1]);
    }
}

/// There are as many sources after messages as before.
pub proof fn number_of_sources_stays(states: Seq<SourceProgressView>, told: Seq<ProgressView>)
    ensures
        told_all(states, told).len() == states.len(),
    decreases told.len(),
{
    if told.len() > 0 {
        number_of_sources_stays(states, told.drop_last());
    }
}

/// The last message about a source tells its state, and its path stays.
pub proof fn last_message_counts(
    states: Seq<SourceProgressView>,
    told: Seq<ProgressView>,
    i: int,
    k: int,
)
    requires
        0 <= i < states.len(),
        0 <= k < told.len(),
        told[k].source_index == i,
        forall|j: int| k < j < told.len() ==> (#[trigger] told[j]).source_index != i,
    ensures
        told_all(states, told).len() == states.len(),
        told_all(states, told)[i] == states[i].told(told[k]),
    decreases told.len(),
{
    let before = told.drop_last();
    number_of_sources_stays(states, before);
    if k == told.len() - 1 {
        lemma_path_stays(states, before, i);
    } else {
        assert forall|j: int| k < j < before.len() implies (#[trigger] before[j]).source_index
            != i by {
            assert(before[j] == told[j]);
        }
        last_message_counts(states, before, i, k);
        assert(told.last() == told[told.len() - 1]);
    }
}

/// Messages do not change paths.
proof fn lemma_path_stays(states: Seq<SourceProgressView>, told: Seq<ProgressView>, i: int)
    requires
        0 <= i < states.len(),
    ensures
        told_all(states, told).len() == states.len(),
        told_all(states, told)[i].path == states[i].path,
    decreases told.len(),
{
    if told.len() > 0 {
        lemma_path_stays(states, told.drop_last(), i);
    }
}

/// Messages may be taken over at once or in two parts.
pub proof fn messages_in_parts(
    states: Seq<SourceProgressView>,
    first: Seq<ProgressView>,
    second: Seq<ProgressView>,
)
    ensures
        told_all(states, first + second) == told_all(told_all(states, first), second),
    decreases second.len(),
{
    if second.len() == 0 {
        assert(first + second =~= first);
    } else {
        assert((first + second).drop_last() =~= first + second.drop_last());
        messages_in_parts(states, first, second.drop_last());
    }
}

/// An import that was begun goes on exactly as long as some source has not told that it
/// is done: one whose last message says so, or that has sent none.
pub proof fn import_lasts_until_all_are_done<P>(app: AppView<P>, told: Seq<ProgressView>)
    requires
        app.ready_to_start(),
    ensures
        ({
            let running = app.importing().told_progress(told);
            running.is_importing <==> exists|i: int|
                0 <= i < app.sources.len() && !(#[trigger] running.progress_states[i]).done
        }),
{
    number_of_sources_stays(app.importing().progress_states, told);
}

// ---------------------------------------------------------------------------
// Messages of scans
// ---------------------------------------------------------------------------

/// A scan that was begun goes on exactly until as many scans have ended as there are
/// sources; it has then the results of all of them, in the order in which they ended.
pub proof fn scan_lasts_until_all_have_ended<P>(app: AppView<P>, told: Seq<ScanMessageView>)
    requires
        app.ready_to_scan(),
    ensures
        ({
            let running = app.scanning().told_scans(told);
            &&& running.is_scanning <==> ended(told) < app.sources.len()
            &&& running.scan_results == all_results(told)
            &&& !running.is_scanning ==> running.scan_status == "Scan complete."@
        }),
{
    assert(seq![] + all_results(told) =~= all_results(told));
}

/// While scans run, messages may be taken over at once or in two parts.
pub proof fn scan_messages_in_parts<P>(
    app: AppView<P>,
    first: Seq<ScanMessageView>,
    second: Seq<ScanMessageView>,
)
    requires
        app.is_scanning,
        app.active_scans >= 0,
        app.told_scans(first).is_scanning,
    ensures
        app.told_scans(first + second) == app.told_scans(first).told_scans(second),
{
    lemma_scan_parts(app.scan_status, first, second);
    assert(app.scan_results + (all_results(first) + all_results(second)) =~= app.scan_results
        + all_results(first) + all_results(second));
}

proof fn lemma_scan_parts(
    status: Seq<char>,
    first: Seq<ScanMessageView>,
    second: Seq<ScanMessageView>,
)
    ensures
        ended(first + second) == ended(first) + ended(second),
        all_results(first + second) == all_results(first) + all_results(second),
        last_status(status, first + second) == last_status(last_status(status, first), second),
    decreases second.len(),
{
    if second.len() == 0 {
        assert(first + second =~= first);
        assert(all_results(first) + seq![] =~= all_results(first));
    } else {
        assert((first + second).drop_last() =~= first + second.drop_last());
        lemma_scan_parts(status, first, second.drop_last());
        assert(all_results(first) + (all_results(second.drop_last()) + second.last().results)
            =~= all_results(first) + all_results(second.drop_last()) + second.last().results);
    }
}

// ---------------------------------------------------------------------------
// Sources
// ---------------------------------------------------------------------------

/// Whether no two sources lie at one path: `==` tells the paths of any two apart.
pub open spec fn distinct<P: PartialEq>(sources: Seq<SourceView<P>>) -> bool {
    forall|i: int, j: int|
        0 <= i < j < sources.len() ==> told_apart(
            (#[trigger] sources[i]).path,
            (#[trigger] sources[j]).path,
        )
}

/// No way to change the list of sources gives two of them one path.
pub proof fn sources_stay_distinct<P: PartialEq>(
    app: AppView<P>,
    source: SourceView<P>,
    after: AppView<P>,
    index: int,
    label: Seq<char>,
)
    requires
        distinct(app.sources),
        app.adds(source, after),
    ensures
        distinct(after.sources),
        distinct(app.without_source(index).sources),
        distinct(app.with_label(index, label).sources),
{
    let fewer = app.without_source(index).sources;
    assert forall|i: int, j: int| 0 <= i < j < fewer.len() implies told_apart(
        (#[trigger] fewer[i]).path,
        (#[trigger] fewer[j]).path,
    ) by {
        if !app.busy() && 0 <= index < app.sources.len() {
            let a = if i < index {
                i
            } else {
                i + 1
            };
            let b = if j < index {
                j
            } else {
                j + 1
            };
            assert(fewer[i] == app.sources[a] && fewer[j] == app.sources[b]);
        }
    }
    let same = app.with_label(index, label).sources;
    assert forall|i: int, j: int| 0 <= i < j < same.len() implies told_apart(
        (#[trigger] same[i]).path,
        (#[trigger] same[j]).path,
    ) by {
        assert(same[i].path == app.sources[i].path && same[j].path == app.sources[j].path);
    }
}

/// A window opens with distinct sources.
pub proof fn sources_begin_distinct<P: PartialEq>(today: Ymd, stored: Option<AppStateView>)
    ensures
        distinct(AppView::<P>::opened(today, stored).sources),
{
}

/// A path at which a source lies is not added again, and that source keeps its label,
/// where `==` does not tell the path apart from that of the source.
pub proof fn source_is_added_once<P: PartialEq>(
    app: AppView<P>,
    again: SourceView<P>,
    after: AppView<P>,
    i: int,
)
    requires
        0 <= i < app.sources.len(),
        !told_apart(app.sources[i].path, again.path),
        app.adds(again, after),
    ensures
        after == app,
{
}

/// Where `==` means equality of paths, a path is added if and only if no source lies
/// there.
pub proof fn new_paths_are_added<P: PartialEq>(
    app: AppView<P>,
    source: SourceView<P>,
    after: AppView<P>,
)
    requires
        P::obeys_eq_spec(),
        app.adds(source, after),
    ensures
        after == if exists|i: int|
            0 <= i < app.sources.len() && (#[trigger] app.sources[i]).path.eq_spec(&source.path) {
            app
        } else {
            app.with_source(source)
        },
{
}

} // verus!
