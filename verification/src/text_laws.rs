//! What texts are made of, and what can be read back from them.
use crate::text::{
    comes_before, decimal, digits, is_space, is_whitespace, list_entries, parse_extensions,
    power_of_ten, push_decimal, split, text_less, texts, trim, trim_end, trim_start, trimmed,
};
use vstd::prelude::*;

verus! {

// ---------------------------------------------------------------------------
// Numerals
// ---------------------------------------------------------------------------

/// Whether a character is a decimal digit.
pub open spec fn is_digit(c: char) -> bool {
    '0' <= c <= '9'
}

/// The number that decimal digits stand for.
pub open spec fn number(s: Seq<char>) -> int
    decreases s.len(),
{
    if s.len() == 0 {
        0
    } else {
        10 * number(s.drop_last()) + (s.last() as int - '0' as int)
    }
}

/// Whether a text is the decimal numeral of a number: at least one digit, nothing but
/// digits, none in front that could be left out, and this number.
pub open spec fn reads_as(s: Seq<char>, n: int) -> bool {
    &&& s.len() > 0
    &&& forall|i: int| 0 <= i < s.len() ==> is_digit(#[trigger] s[i])
    &&& s.len() > 1 ==> s[0] != '0'
    &&& number(s) == n
}

/// The numeral of a number reads as that number.
pub proof fn decimal_reads_back(n: nat)
    ensures
        reads_as(decimal(n), n as int),
    decreases n,
{
    let s = decimal(n);
    if n < 10 {
        assert(s.drop_last() =~= seq![]);
        assert(number(seq![]) == 0);
    } else {
        decimal_reads_back(n / 10);
        assert(s.drop_last() =~= decimal(n / 10));
        assert forall|i: int| 0 <= i < s.len() implies is_digit(#[trigger] s[i]) by {
            if i < s.len() - 1 {
                assert(s[i] == decimal(n / 10)[i]);
            }
        }
        if decimal(n / 10).len() == 1 {
            assert(decimal(n / 10).drop_last() =~= seq![]);
            assert(number(seq![]) == 0);
        }
        assert(s[0] == decimal(n / 10)[0]);
    }
}

/// The last digits of a number are as many as asked for, and read as its rest.
pub proof fn digits_read_back(width: nat, n: nat)
    ensures
        digits(width, n).len() == width,
        forall|i: int| 0 <= i < width ==> is_digit(#[trigger] digits(width, n)[i]),
        n < power_of_ten(width) ==> number(digits(width, n)) == n,
    decreases width,
{
    if width > 0 {
        let w = (width - 1) as nat;
        digits_read_back(w, n / 10);
        assert(digits(width, n).drop_last() =~= digits(w, n / 10));
    }
}

/// What `push_decimal` appends reads as the number.
pub proof fn pushed_decimals_read_back(out: &mut String, n: u128)
    requires
        call_ensures(push_decimal, (out, n), ()),
    ensures
        final(out)@.len() > old(out)@.len(),
        final(out)@.take(old(out)@.len() as int) == old(out)@,
        reads_as(final(out)@.skip(old(out)@.len() as int), n as int),
{
    decimal_reads_back(n as nat);
    assert(final(out)@.take(old(out)@.len() as int) =~= old(out)@);
    assert(final(out)@.skip(old(out)@.len() as int) =~= decimal(n as nat));
}

// ---------------------------------------------------------------------------
// Order
// ---------------------------------------------------------------------------

/// Whether a text comes before another in a dictionary: where they first differ it has
/// the smaller character, or it ends there.
pub open spec fn is_before(a: Seq<char>, b: Seq<char>) -> bool {
    exists|i: int|
        {
            &&& 0 <= i <= a.len()
            &&& i < b.len()
            &&& #[trigger] a.take(i) == b.take(i)
            &&& i == a.len() || a[i] < b[i]
        }
}

/// The order of texts is that of a dictionary.
pub proof fn texts_are_in_dictionary_order(a: Seq<char>, b: Seq<char>)
    ensures
        text_less(a, b) <==> is_before(a, b),
    decreases a.len(),
{
    if b.len() > 0 {
        if a.len() == 0 {
            assert(a.take(0) =~= b.take(0));
        } else if a[0] != b[0] {
            assert(a.take(0) =~= b.take(0));
            if is_before(a, b) {
                let i = choose|i: int|
                    {
                        &&& 0 <= i <= a.len()
                        &&& i < b.len()
                        &&& #[trigger] a.take(i) == b.take(i)
                        &&& i == a.len() || a[i] < b[i]
                    };
                if i > 0 {
                    assert(a.take(i)[0] == b.take(i)[0]);
                }
            }
        } else {
            let (x, y) = (a.drop_first(), b.drop_first());
            texts_are_in_dictionary_order(x, y);
            if is_before(x, y) {
                let i = choose|i: int|
                    {
                        &&& 0 <= i <= x.len()
                        &&& i < y.len()
                        &&& #[trigger] x.take(i) == y.take(i)
                        &&& i == x.len() || x[i] < y[i]
                    };
                assert forall|j: int| 0 <= j < i + 1 implies #[trigger] a[j] == b[j] by {
                    if j > 0 {
                        assert(x.take(i)[j - 1] == y.take(i)[j - 1]);
                    }
                }
                assert(a.take(i + 1) =~= b.take(i + 1));
            }
            if is_before(a, b) {
                let i = choose|i: int|
                    {
                        &&& 0 <= i <= a.len()
                        &&& i < b.len()
                        &&& #[trigger] a.take(i) == b.take(i)
                        &&& i == a.len() || a[i] < b[i]
                    };
                assert(i > 0);
                assert forall|j: int| 0 <= j < i - 1 implies #[trigger] x[j] == y[j] by {
                    assert(a.take(i)[j + 1] == b.take(i)[j + 1]);
                }
                assert(x.take(i - 1) =~= y.take(i - 1));
            }
        }
    }
}

/// What `comes_before` tells is the order of a dictionary.
pub proof fn comes_before_is_dictionary_order(a: &str, b: &str, before: bool)
    requires
        call_ensures(comes_before, (a, b), before),
    ensures
        before <==> is_before(a@, b@),
{
    texts_are_in_dictionary_order(a@, b@);
}

// ---------------------------------------------------------------------------
// White space and lists
// ---------------------------------------------------------------------------

/// Whether a character is white space in Unicode.
pub open spec fn is_white(c: char) -> bool {
    ||| c == ' ' || c == '\t' || c == '\n' || c == '\r'
    ||| c as int == 0x0b || c as int == 0x0c
    ||| c as int == 0x85 || c as int == 0xa0 || c as int == 0x1680
    ||| 0x2000 <= c as int <= 0x200a
    ||| c as int == 0x2028 || c as int == 0x2029 || c as int == 0x202f
    ||| c as int == 0x205f || c as int == 0x3000
}

/// Whether a text is nothing but white space.
pub open spec fn is_blank(s: Seq<char>) -> bool {
    forall|i: int| 0 <= i < s.len() ==> is_white(#[trigger] s[i])
}

/// Whether `inner` is a text without the white space around it: only white space is taken
/// off, and none is left at its ends.
pub open spec fn is_trimmed(inner: Seq<char>, s: Seq<char>) -> bool {
    &&& inner.len() > 0 ==> !is_white(inner[0]) && !is_white(inner.last())
    &&& exists|left: Seq<char>, right: Seq<char>|
        #![trigger is_blank(left), is_blank(right)]
        is_blank(left) && is_blank(right) && s == left + inner + right
}

/// A character is white space as Unicode has it.
pub proof fn spaces_are_those_of_unicode(c: char, white: bool)
    requires
        call_ensures(is_whitespace, (c,), white),
    ensures
        white == is_white(c),
{
}

proof fn lemma_white(c: char)
    ensures
        is_space(c) == is_white(c),
{
}

proof fn lemma_start(s: Seq<char>) -> (left: Seq<char>)
    ensures
        is_blank(left),
        s == left + trim_start(s),
        trim_start(s).len() > 0 ==> !is_white(trim_start(s)[0]),
    decreases s.len(),
{
    if s.len() > 0 && is_space(s[0]) {
        let rest = lemma_start(s.drop_first());
        let left = seq![s[0]] + rest;
        assert(s =~= seq![s[0]] + s.drop_first());
        assert(s =~= left + trim_start(s));
        assert forall|i: int| 0 <= i < left.len() implies is_white(#[trigger] left[i]) by {
            if i > 0 {
                assert(left[i] == rest[i - 1]);
            } else {
                assert(left[i] == s[0]);
                lemma_white(s[0]);
            }
        }
        left
    } else {
        assert(s =~= seq![] + s);
        seq![]
    }
}

proof fn lemma_end(s: Seq<char>) -> (right: Seq<char>)
    ensures
        is_blank(right),
        s == trim_end(s) + right,
        trim_end(s).len() > 0 ==> !is_white(trim_end(s).last()),
    decreases s.len(),
{
    if s.len() > 0 && is_space(s.last()) {
        let rest = lemma_end(s.drop_last());
        let right = rest.push(s.last());
        assert(s =~= s.drop_last().push(s.last()));
        assert(s =~= trim_end(s) + right);
        assert forall|i: int| 0 <= i < right.len() implies is_white(#[trigger] right[i]) by {
            if i < rest.len() {
                assert(right[i] == rest[i]);
            } else {
                assert(right[i] == s.last());
                lemma_white(s.last());
            }
        }
        right
    } else {
        assert(s =~= s + seq![]);
        seq![]
    }
}

/// Trimming takes white space off both ends, all of it and nothing else.
pub proof fn trimming_takes_off_white_space(s: Seq<char>)
    ensures
        is_trimmed(trim(s), s),
        trim(s).len() == 0 <==> is_blank(s),
{
    let left = lemma_start(s);
    let middle = trim_start(s);
    let right = lemma_end(middle);
    assert(s =~= left + trim(s) + right);
    if trim(s).len() > 0 {
        assert(trim(s)[0] == middle[0]);
        assert(s[left.len() as int] == trim(s)[0]);
    } else {
        assert forall|i: int| 0 <= i < s.len() implies is_white(#[trigger] s[i]) by {
            if i < left.len() {
                assert(s[i] == left[i]);
            } else {
                assert(s[i] == right[i - left.len()]);
            }
        }
    }
}

/// What `trimmed` gives is the text without the white space around it.
pub proof fn trimmed_texts_lose_white_space(s: &str, r: String)
    requires
        call_ensures(trimmed, (s,), r),
    ensures
        is_trimmed(r@, s@),
        r@.len() == 0 <==> is_blank(s@),
{
    trimming_takes_off_white_space(s@);
}

/// A list without a comma has its own text as its one entry, without the white space
/// around it, or none if there is nothing else.
pub proof fn list_of_one(s: Seq<char>)
    requires
        !s.contains(','),
    ensures
        is_blank(s) ==> list_entries(s).len() == 0,
        !is_blank(s) ==> list_entries(s).len() == 1 && is_trimmed(list_entries(s)[0], s),
{
    lemma_no_comma(s);
    trimming_takes_off_white_space(s);
    reveal_with_fuel(Seq::filter, 3);
    let mapped = split(s, ',').map_values(|piece: Seq<char>| trim(piece));
    assert(mapped =~= seq![trim(s)]);
    assert(mapped.drop_last() =~= seq![]);
}

proof fn lemma_no_comma(s: Seq<char>)
    requires
        !s.contains(','),
    ensures
        split(s, ',') == seq![s],
    decreases s.len(),
{
    if s.len() > 0 {
        let rest = s.drop_last();
        if rest.contains(',') {
            let i = choose|i: int| 0 <= i < rest.len() && rest[i] == ',';
            assert(s[i] == ',');
        }
        lemma_no_comma(rest);
        assert(s.last() == s[s.len() - 1]);
        assert(split(s, ',') =~= seq![s]) by {
            assert(seq![rest].drop_last() =~= seq![]);
            assert(rest.push(s.last()) =~= s);
        }
    } else {
        assert(s =~= seq![]);
        assert(split(s, ',') =~= seq![s]);
    }
}

/// A comma parts a list: its entries are those before the comma, and then those behind.
pub proof fn comma_parts_a_list(a: Seq<char>, b: Seq<char>)
    ensures
        list_entries(a + ","@ + b) == list_entries(a) + list_entries(b),
{
    reveal_strlit(",");
    lemma_split_parts(a, b);
    let (x, y) = (split(a, ','), split(b, ','));
    let f = |piece: Seq<char>| trim(piece);
    let g = |entry: Seq<char>| entry.len() > 0;
    assert((x + y).map_values(f) =~= x.map_values(f) + y.map_values(f));
    Seq::filter_distributes_over_add(x.map_values(f), y.map_values(f), g);
}

proof fn lemma_split_parts(a: Seq<char>, b: Seq<char>)
    ensures
        split(a + ","@ + b, ',') == split(a, ',') + split(b, ','),
        split(b, ',').len() > 0,
    decreases b.len(),
{
    reveal_strlit(",");
    let whole = a + ","@ + b;
    if b.len() == 0 {
        assert(whole.drop_last() =~= a);
        assert(split(whole, ',') =~= split(a, ',') + split(b, ','));
    } else {
        let rest = b.drop_last();
        lemma_split_parts(a, rest);
        assert(whole.drop_last() =~= a + ","@ + rest);
        assert(whole.last() == b.last());
        let (x, y) = (split(a, ','), split(rest, ','));
        assert((x + y).last() == y.last());
        assert((x + y).drop_last() =~= x + y.drop_last());
        assert(split(whole, ',') =~= split(a, ',') + split(b, ','));
    }
}

/// What `parse_extensions` gives are the entries of the list, in its order.
pub proof fn parsed_extensions_are_the_entries(input: &str, entries: Vec<String>)
    requires
        call_ensures(parse_extensions, (input,), entries),
    ensures
        entries@.len() == list_entries(input@).len(),
        forall|i: int| 0 <= i < entries@.len() ==> (#[trigger] entries@[i])@ == list_entries(
            input@,
        )[i],
{
    assert(texts(entries@).len() == entries@.len());
    assert forall|i: int| 0 <= i < entries@.len() implies (#[trigger] entries@[i])@ == list_entries(
        input@,
    )[i] by {
        assert(texts(entries@)[i] == entries@[i]@);
    }
}

} // verus!
