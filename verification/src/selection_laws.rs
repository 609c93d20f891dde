//! Which files are meant, told without a filter: by the extensions and days given.
use crate::date::{Date, Ymd};
use crate::filter::{day, Entry, Filter, FilterView};
use crate::text::{ascii_lower, ascii_lower_char, same_ignoring_ascii_case, texts};
use vstd::prelude::*;

verus! {

/// Whether two characters are the same, or an ASCII letter in both its cases.
pub open spec fn same_letter(c: char, d: char) -> bool {
    ||| c == d
    ||| 'A' <= c <= 'Z' && d as int == c as int + 32
    ||| 'A' <= d <= 'Z' && c as int == d as int + 32
}

/// Whether two texts differ in nothing but the case of ASCII letters.
pub open spec fn same_letters(a: Seq<char>, b: Seq<char>) -> bool {
    a.len() == b.len() && forall|i: int|
        0 <= i < a.len() ==> same_letter(#[trigger] a[i], #[trigger] b[i])
}

/// Whether a day is later than another.
pub open spec fn is_later(a: Ymd, b: Ymd) -> bool {
    ||| a.0 > b.0
    ||| a.0 == b.0 && a.1 > b.1
    ||| a.0 == b.0 && a.1 == b.1 && a.2 > b.2
}

/// Whether a day that may not be known is neither before a first nor after a last day,
/// as far as these are given.
pub open spec fn is_between(
    modified: Option<Date>,
    first: Option<Date>,
    last: Option<Date>,
) -> bool {
    modified matches Some(d) ==> {
        &&& first matches Some(f) ==> !is_later(f@, d@)
        &&& last matches Some(l) ==> !is_later(d@, l@)
    }
}

/// Whether an entry is a file with one of the extensions, whose day lies in the period.
pub open spec fn is_wanted(
    extensions: Vec<String>,
    first: Option<Date>,
    last: Option<Date>,
    entry: Entry,
) -> bool {
    &&& entry.is_file
    &&& entry.extension matches Some(extension)
    &&& exists|i: int|
        0 <= i < extensions@.len() && same_letters((#[trigger] extensions@[i])@, extension@)
    &&& entry.metadata matches Some(info)
    &&& is_between(info.modified, first, last)
}

/// A text turned small keeps its letters.
proof fn lemma_lower_char(c: char, d: char)
    ensures
        ascii_lower_char(c) == ascii_lower_char(d) <==> same_letter(c, d),
{
}

/// Two texts are the same once their ASCII letters are small if and only if they differ
/// in nothing but the case of these.
pub proof fn small_letters_keep_the_rest(a: Seq<char>, b: Seq<char>)
    ensures
        ascii_lower(a) == ascii_lower(b) <==> same_letters(a, b),
        ascii_lower(a).len() == a.len(),
        forall|i: int|
            0 <= i < a.len() ==> !('A' <= #[trigger] ascii_lower(a)[i] <= 'Z') && same_letter(
                a[i],
                ascii_lower(a)[i],
            ),
{
    let (x, y) = (ascii_lower(a), ascii_lower(b));
    if same_letters(a, b) {
        assert forall|i: int| 0 <= i < a.len() implies x[i] == y[i] by {
            assert(same_letter(a[i], b[i]));
            lemma_lower_char(a[i], b[i]);
        }
        assert(x =~= y);
    }
    if x == y {
        assert(a.len() == x.len() && b.len() == y.len());
        assert forall|i: int| 0 <= i < a.len() implies same_letter(
            #[trigger] a[i],
            #[trigger] b[i],
        ) by {
            assert(x[i] == y[i]);
            lemma_lower_char(a[i], b[i]);
        }
    }
}

/// Texts that are compared without case are the same but for that of ASCII letters.
pub proof fn case_is_all_that_is_ignored(a: &str, b: &str, same: bool)
    requires
        call_ensures(same_ignoring_ascii_case, (a, b), same),
    ensures
        same == same_letters(a@, b@),
{
    small_letters_keep_the_rest(a@, b@);
}

/// A filter selects what is wanted.
pub proof fn lemma_wanted(
    extensions: Vec<String>,
    first: Option<Date>,
    last: Option<Date>,
    entry: Entry,
)
    ensures
        (FilterView {
            extensions: texts(extensions@),
            start_date: day(first),
            end_date: day(last),
        }).selects(entry@) == is_wanted(extensions, first, last, entry),
{
    let filter = FilterView {
        extensions: texts(extensions@),
        start_date: day(first),
        end_date: day(last),
    };
    if let Some(extension) = entry.extension {
        assert forall|i: int| 0 <= i < extensions@.len() implies (ascii_lower(
            #[trigger] filter.extensions[i],
        ) == ascii_lower(extension@)) == same_letters(extensions@[i]@, extension@) by {
            small_letters_keep_the_rest(extensions@[i]@, extension@);
        }
        if filter.lists(extension@) {
            let i = choose|i: int|
                0 <= i < filter.extensions.len() && ascii_lower(#[trigger] filter.extensions[i])
                    == ascii_lower(extension@);
            assert(same_letters(extensions@[i]@, extension@));
        }
        if exists|i: int|
            0 <= i < extensions@.len() && same_letters((#[trigger] extensions@[i])@, extension@) {
            let i = choose|i: int|
                0 <= i < extensions@.len() && same_letters(
                    (#[trigger] extensions@[i])@,
                    extension@,
                );
            assert(ascii_lower(filter.extensions[i]) == ascii_lower(extension@));
        }
    }
}

/// A filter selects an entry if and only if it is a file with one of the extensions,
/// whatever the case of ASCII letters, whose day lies in the period, as far as known.
pub proof fn filter_selects_what_is_wanted(filter: Filter, entry: Entry, selected: bool)
    requires
        call_ensures(Filter::selects, (&filter, &entry), selected),
    ensures
        selected == is_wanted(filter.extensions, filter.start_date, filter.end_date, entry),
{
    lemma_wanted(filter.extensions, filter.start_date, filter.end_date, entry);
}

/// A day lies in the period of a filter if and only if it is neither before its first nor
/// after its last day.
pub proof fn filter_covers_its_days(filter: Filter, date: Option<Date>, covered: bool)
    requires
        call_ensures(Filter::covers, (&filter, date), covered),
    ensures
        covered == is_between(date, filter.start_date, filter.end_date),
{
}

/// An extension is in the list of a filter if and only if one there differs from it in
/// nothing but the case of ASCII letters.
pub proof fn filter_lists_its_extensions(filter: Filter, extension: &str, listed: bool)
    requires
        call_ensures(Filter::lists, (&filter, extension), listed),
    ensures
        listed <==> exists|i: int|
            0 <= i < filter.extensions@.len() && same_letters(
                (#[trigger] filter.extensions@[i])@,
                extension@,
            ),
{
    assert forall|i: int| 0 <= i < filter.extensions@.len() implies (ascii_lower(
        #[trigger] filter@.extensions[i],
    ) == ascii_lower(extension@)) == same_letters(filter.extensions@[i]@, extension@) by {
        small_letters_keep_the_rest(filter.extensions@[i]@, extension@);
    }
    if exists|i: int|
        0 <= i < filter.extensions@.len() && same_letters(
            (#[trigger] filter.extensions@[i])@,
            extension@,
        ) {
        let i = choose|i: int|
            0 <= i < filter.extensions@.len() && same_letters(
                (#[trigger] filter.extensions@[i])@,
                extension@,
            );
        assert(ascii_lower(filter@.extensions[i]) == ascii_lower(extension@));
    }
}

/// A filter heeds days if and only if it has a first or a last one.
pub proof fn filter_heeds_given_days(filter: Filter, dated: bool)
    requires
        call_ensures(Filter::is_dated, (&filter,), dated),
    ensures
        dated <==> !(filter.start_date is None && filter.end_date is None),
{
}

} // verus!
