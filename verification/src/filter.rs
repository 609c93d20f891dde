//! Which files of a source are meant: by extension, and by day of last change.
use crate::date::{date_less, Date, Ymd};
use crate::text::{ascii_lower, same_ignoring_ascii_case, texts};
use vstd::prelude::*;

verus! {

/// What is known of a file's metadata: its length in bytes, and the local day of its
/// last change where the platform tells.
#[derive(Clone, Copy, Debug)]
pub struct FileInfo {
    pub len: u64,
    pub modified: Option<Date>,
}

/// What a walk over a source finds: whether it is a file, the extension of its name
/// where that is Unicode, and its metadata where they can be read.
#[derive(Debug)]
pub struct Entry {
    pub is_file: bool,
    pub extension: Option<String>,
    pub metadata: Option<FileInfo>,
}

/// The numbers of a date that may be absent.
pub open spec fn day(date: Option<Date>) -> Option<Ymd> {
    match date {
        Some(d) => Some(d@),
        None => None,
    }
}

/// The metadata of a file, in numbers.
pub struct FileInfoView {
    pub len: nat,
    pub modified: Option<Ymd>,
}

impl View for FileInfo {
    type V = FileInfoView;

    open spec fn view(&self) -> FileInfoView {
        FileInfoView { len: self.len as nat, modified: day(self.modified) }
    }
}

/// What a walk finds, in texts and numbers.
pub struct EntryView {
    pub is_file: bool,
    pub extension: Option<Seq<char>>,
    pub metadata: Option<FileInfoView>,
}

impl View for Entry {
    type V = EntryView;

    open spec fn view(&self) -> EntryView {
        EntryView {
            is_file: self.is_file,
            extension: match self.extension {
                Some(e) => Some(e@),
                None => None,
            },
            metadata: match self.metadata {
                Some(m) => Some(m@),
                None => None,
            },
        }
    }
}

/// The files that are meant: those with one of the extensions, changed within the
/// period.
#[derive(Debug)]
pub struct Filter {
    pub extensions: Vec<String>,
    pub start_date: Option<Date>,
    pub end_date: Option<Date>,
}

/// A filter, in texts and numbers.
pub struct FilterView {
    pub extensions: Seq<Seq<char>>,
    pub start_date: Option<Ymd>,
    pub end_date: Option<Ymd>,
}

impl View for Filter {
    type V = FilterView;

    open spec fn view(&self) -> FilterView {
        FilterView {
            extensions: texts(self.extensions@),
            start_date: day(self.start_date),
            end_date: day(self.end_date),
        }
    }
}

impl FilterView {
    /// Whether an extension is in the list, whatever the case of its ASCII letters.
    pub open spec fn lists(self, extension: Seq<char>) -> bool {
        exists|i: int|
            0 <= i < self.extensions.len() && ascii_lower(#[trigger] self.extensions[i])
                == ascii_lower(extension)
    }

    /// Whether a day lies in the period, whose two ends belong to it. A day that is
    /// not known counts as within it.
    pub open spec fn covers(self, date: Option<Ymd>) -> bool {
        date matches Some(d) ==> {
            &&& self.start_date matches Some(start) ==> !date_less(d, start)
            &&& self.end_date matches Some(end) ==> !date_less(end, d)
        }
    }

    /// Whether an entry is meant.
    pub open spec fn selects(self, entry: EntryView) -> bool {
        &&& entry.is_file
        &&& entry.extension matches Some(extension)
        &&& self.lists(extension)
        &&& entry.metadata matches Some(info)
        &&& self.covers(info.modified)
    }
}

/// The case of ASCII letters in an extension does not matter.
pub proof fn extension_case_does_not_matter(filter: FilterView, a: Seq<char>, b: Seq<char>)
    requires
        ascii_lower(a) == ascii_lower(b),
    ensures
        filter.lists(a) == filter.lists(b),
{
}

/// Whether each extension of a list is in another, whatever the case of its ASCII
/// letters.
pub open spec fn is_within(a: Seq<Seq<char>>, b: Seq<Seq<char>>) -> bool {
    forall|i: int|
        0 <= i < a.len() ==> exists|j: int|
            0 <= j < b.len() && ascii_lower(#[trigger] b[j]) == ascii_lower(#[trigger] a[i])
}

/// Whether two lists have the same extensions, whatever their order, how often they
/// occur, and the case of their ASCII letters.
pub open spec fn same_extensions(a: Seq<Seq<char>>, b: Seq<Seq<char>>) -> bool {
    is_within(a, b) && is_within(b, a)
}

/// Neither the order of the list of extensions, nor how often they occur in it, nor the
/// case of their ASCII letters matters to what is selected.
pub proof fn order_and_case_of_list_do_not_matter(a: FilterView, b: FilterView, entry: EntryView)
    requires
        same_extensions(a.extensions, b.extensions),
        a.start_date == b.start_date,
        a.end_date == b.end_date,
    ensures
        a.selects(entry) == b.selects(entry),
{
    if let Some(extension) = entry.extension {
        if a.lists(extension) {
            lemma_list_within(a, b, extension);
        }
        if b.lists(extension) {
            lemma_list_within(b, a, extension);
        }
    }
}

/// What is in a list is in one that has all of its extensions.
proof fn lemma_list_within(a: FilterView, b: FilterView, extension: Seq<char>)
    requires
        is_within(a.extensions, b.extensions),
        a.lists(extension),
    ensures
        b.lists(extension),
{
    let i = choose|i: int|
        0 <= i < a.extensions.len() && ascii_lower(#[trigger] a.extensions[i]) == ascii_lower(
            extension,
        );
    let j = choose|j: int|
        0 <= j < b.extensions.len() && ascii_lower(#[trigger] b.extensions[j]) == ascii_lower(
            a.extensions[i],
        );
    assert(ascii_lower(b.extensions[j]) == ascii_lower(extension));
}

/// A filter without a first and a last day takes files of every day.
pub proof fn open_period_covers_every_day(filter: FilterView, date: Option<Ymd>)
    requires
        filter.start_date is None,
        filter.end_date is None,
    ensures
        filter.covers(date),
{
}

/// The first and the last day belong to the period, if the first is not after the last.
pub proof fn period_holds_its_ends(filter: FilterView, start: Ymd, end: Ymd)
    requires
        filter.start_date == Some(start),
        filter.end_date == Some(end),
        !date_less(end, start),
    ensures
        filter.covers(Some(start)),
        filter.covers(Some(end)),
{
}

impl Filter {
    /// Whether an extension is in the list, whatever the case of its ASCII letters.
    pub fn lists(&self, extension: &str) -> (b: bool)
        ensures
            b == self@.lists(extension@),
    {
        let mut i: usize = 0;
        while i < self.extensions.len()
            invariant
                i <= self.extensions@.len(),
                forall|j: int|
                    0 <= j < i ==> ascii_lower(#[trigger] self@.extensions[j]) != ascii_lower(
                        extension@,
                    ),
            decreases self.extensions@.len() - i,
        {
            if same_ignoring_ascii_case(self.extensions[i].as_str(), extension) {
                assert(self@.extensions[i as int] == self.extensions@[i as int]@);
                return true;
            }
            i = i + 1;
        }
        false
    }

    /// Whether the day of a file matters: whether the period has a first or a last day.
    pub fn is_dated(&self) -> (b: bool)
        ensures
            b == (self@.start_date is Some || self@.end_date is Some),
            !b ==> forall|date: Option<Ymd>| #[trigger] self@.covers(date),
    {
        self.start_date.is_some() || self.end_date.is_some()
    }

    /// Whether a day lies in the period.
    pub fn covers(&self, date: Option<Date>) -> (b: bool)
        ensures
            b == self@.covers(day(date)),
    {
        let mut within = true;
        if let Some(d) = date {
            if let Some(start) = self.start_date {
                if d.before(&start) {
                    within = false;
                }
            }
            if let Some(end) = self.end_date {
                if end.before(&d) {
                    within = false;
                }
            }
        }
        within
    }

    /// Whether an entry is meant.
    pub fn selects(&self, entry: &Entry) -> (b: bool)
        ensures
            b == self@.selects(entry@),
    {
        if !entry.is_file {
            return false;
        }
        match (&entry.extension, &entry.metadata) {
            (Some(extension), Some(info)) => self.lists(extension.as_str()) && self.covers(
                info.modified,
            ),
            _ => false,
        }
    }
}

} // verus!
