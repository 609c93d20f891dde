//! Text: decimal numerals, trimming, splitting, ASCII case and ordering.
use vstd::prelude::*;

verus! {

/// The texts of a sequence of strings.
pub open spec fn texts(strings: Seq<String>) -> Seq<Seq<char>> {
    strings.map_values(|s: String| s@)
}

// ---------------------------------------------------------------------------
// Decimal numerals
// ---------------------------------------------------------------------------

/// The character of a decimal digit.
pub open spec fn digit(d: nat) -> char {
    if d == 0 {
        '0'
    } else if d == 1 {
        '1'
    } else if d == 2 {
        '2'
    } else if d == 3 {
        '3'
    } else if d == 4 {
        '4'
    } else if d == 5 {
        '5'
    } else if d == 6 {
        '6'
    } else if d == 7 {
        '7'
    } else if d == 8 {
        '8'
    } else {
        '9'
    }
}

/// The decimal numeral of `n`, without leading zeros.
pub open spec fn decimal(n: nat) -> Seq<char>
    decreases n,
{
    if n < 10 {
        seq![digit(n)]
    } else {
        decimal(n / 10).push(digit(n % 10))
    }
}

/// The last `width` decimal digits of `n`, with leading zeros.
pub open spec fn digits(width: nat, n: nat) -> Seq<char>
    decreases width,
{
    if width == 0 {
        seq![]
    } else {
        digits((width - 1) as nat, n / 10).push(digit(n % 10))
    }
}

/// Different numbers have different numerals.
pub proof fn lemma_decimal_injective(a: nat, b: nat)
    requires
        decimal(a) == decimal(b),
    ensures
        a == b,
    decreases a,
{
    assert(decimal(a).len() >= 1 && decimal(b).len() >= 1);
    assert(decimal(a).last() == digit(a % 10));
    assert(decimal(b).last() == digit(b % 10));
    if a >= 10 {
        lemma_decimal_nonempty(a / 10);
    }
    if b >= 10 {
        lemma_decimal_nonempty(b / 10);
    }
    if a >= 10 && b >= 10 {
        assert(decimal(a).drop_last() =~= decimal(a / 10));
        assert(decimal(b).drop_last() =~= decimal(b / 10));
        lemma_decimal_injective(a / 10, b / 10);
    }
}

proof fn lemma_decimal_nonempty(n: nat)
    ensures
        decimal(n).len() > 0,
{
}

/// `10` to the power of `places`.
pub open spec fn power_of_ten(places: nat) -> nat
    decreases places,
{
    if places == 0 {
        1
    } else {
        10 * power_of_ten((places - 1) as nat)
    }
}

/// The literal of one decimal digit.
pub(crate) fn digit_str(d: u8) -> (s: &'static str)
    requires
        d < 10,
    ensures
        s@ == seq![digit(d as nat)],
{
    proof {
        reveal_strlit("0");
        reveal_strlit("1");
        reveal_strlit("2");
        reveal_strlit("3");
        reveal_strlit("4");
        reveal_strlit("5");
        reveal_strlit("6");
        reveal_strlit("7");
        reveal_strlit("8");
        reveal_strlit("9");
    }
    let s = match d {
        0 => "0",
        1 => "1",
        2 => "2",
        3 => "3",
        4 => "4",
        5 => "5",
        6 => "6",
        7 => "7",
        8 => "8",
        _ => "9",
    };
    assert(s@ =~= seq![digit(d as nat)]);
    s
}

/// Appends the decimal numeral of `n`.
pub fn push_decimal(out: &mut String, n: u128)
    ensures
        final(out)@ == old(out)@ + decimal(n as nat),
    decreases n,
{
    if n >= 10 {
        push_decimal(out, n / 10);
    }
    out.append(digit_str((n % 10) as u8));
    assert(out@ =~= old(out)@ + decimal(n as nat));
}

/// Appends the last `width` decimal digits of `n`.
pub fn push_digits(out: &mut String, width: u8, n: u128)
    ensures
        final(out)@ == old(out)@ + digits(width as nat, n as nat),
    decreases width,
{
    if width > 0 {
        push_digits(out, width - 1, n / 10);
        out.append(digit_str((n % 10) as u8));
    }
    assert(out@ =~= old(out)@ + digits(width as nat, n as nat));
}

/// The characters of a text, one by one.
pub fn chars_of(s: &str) -> (chars: Vec<char>)
    ensures
        chars@ == s@,
{
    let mut chars: Vec<char> = Vec::new();
    for c in it: s.chars()
        invariant
            chars@ == it.seq().take(it.index() as int),
            it.seq() == s@,
    {
        chars.push(c);
    }
    chars
}

// ---------------------------------------------------------------------------
// White space and trimming
// ---------------------------------------------------------------------------

/// The characters with the Unicode property White_Space.
pub open spec fn is_space(c: char) -> bool {
    let u = c as u32;
    ||| 0x9 <= u <= 0xd
    ||| u == 0x20
    ||| u == 0x85
    ||| u == 0xa0
    ||| u == 0x1680
    ||| 0x2000 <= u <= 0x200a
    ||| u == 0x2028
    ||| u == 0x2029
    ||| u == 0x202f
    ||| u == 0x205f
    ||| u == 0x3000
}

/// Whether a character is white space.
pub fn is_whitespace(c: char) -> (b: bool)
    ensures
        b == is_space(c),
{
    let u: u32 = c as u32;
    (0x9 <= u && u <= 0xd) || u == 0x20 || u == 0x85 || u == 0xa0 || u == 0x1680 || (0x2000 <= u
        && u <= 0x200a) || u == 0x2028 || u == 0x2029 || u == 0x202f || u == 0x205f || u == 0x3000
}

/// A text without the white space it starts with.
pub open spec fn trim_start(s: Seq<char>) -> Seq<char>
    decreases s.len(),
{
    if s.len() > 0 && is_space(s[0]) {
        trim_start(s.drop_first())
    } else {
        s
    }
}

/// A text without the white space it ends with.
pub open spec fn trim_end(s: Seq<char>) -> Seq<char>
    decreases s.len(),
{
    if s.len() > 0 && is_space(s.last()) {
        trim_end(s.drop_last())
    } else {
        s
    }
}

/// A text without the white space around it.
pub open spec fn trim(s: Seq<char>) -> Seq<char> {
    trim_end(trim_start(s))
}

/// What is trimmed neither starts nor ends with white space, and stays part of the text.
pub proof fn trimmed_ends(s: Seq<char>)
    ensures
        trim(s).len() > 0 ==> !is_space(trim(s)[0]) && !is_space(trim(s).last()),
        forall|c: char| trim(s).contains(c) ==> s.contains(c),
{
    lemma_trim_start(s);
    lemma_trim_end(trim_start(s));
}

/// Trimming twice is trimming once.
pub proof fn trim_is_idempotent(s: Seq<char>)
    ensures
        trim(trim(s)) == trim(s),
{
    trimmed_ends(s);
}

proof fn lemma_trim_start(s: Seq<char>)
    ensures
        trim_start(s).len() > 0 ==> !is_space(trim_start(s)[0]),
        forall|c: char| trim_start(s).contains(c) ==> s.contains(c),
    decreases s.len(),
{
    if s.len() > 0 && is_space(s[0]) {
        lemma_trim_start(s.drop_first());
        assert forall|c: char| trim_start(s).contains(c) implies s.contains(c) by {
            assert(s.drop_first().contains(c));
            let i = choose|i: int| 0 <= i < s.drop_first().len() && s.drop_first()[i] == c;
            assert(s[i + 1] == c);
        }
    }
}

proof fn lemma_trim_end(s: Seq<char>)
    ensures
        trim_end(s).len() > 0 ==> !is_space(trim_end(s).last()),
        trim_end(s).len() > 0 ==> trim_end(s)[0] == s[0],
        trim_end(s).len() <= s.len(),
        forall|c: char| trim_end(s).contains(c) ==> s.contains(c),
    decreases s.len(),
{
    if s.len() > 0 && is_space(s.last()) {
        lemma_trim_end(s.drop_last());
        assert forall|c: char| trim_end(s).contains(c) implies s.contains(c) by {
            assert(s.drop_last().contains(c));
            let i = choose|i: int| 0 <= i < s.drop_last().len() && s.drop_last()[i] == c;
            assert(s[i] == c);
        }
    }
}

/// The bounds of `chars[from..to]` without the white space around it.
fn trim_bounds(chars: &Vec<char>, from: usize, to: usize) -> (r: (usize, usize))
    requires
        from <= to <= chars@.len(),
    ensures
        from <= r.0 <= r.1 <= to,
        chars@.subrange(r.0 as int, r.1 as int) == trim(chars@.subrange(from as int, to as int)),
{
    let ghost whole = chars@.subrange(from as int, to as int);
    let mut start: usize = from;
    while start < to && is_whitespace(chars[start])
        invariant
            from <= start <= to <= chars@.len(),
            trim_start(chars@.subrange(start as int, to as int)) == trim_start(
                chars@.subrange(from as int, to as int),
            ),
        decreases to - start,
    {
        assert(chars@.subrange(start as int, to as int).drop_first() =~= chars@.subrange(
            start + 1,
            to as int,
        ));
        start = start + 1;
    }
    assert(chars@.subrange(start as int, to as int) == trim_start(whole));
    let mut end: usize = to;
    while end > start && is_whitespace(chars[end - 1])
        invariant
            from <= start <= end <= to <= chars@.len(),
            trim_end(chars@.subrange(start as int, end as int)) == trim_end(
                chars@.subrange(start as int, to as int),
            ),
        decreases end,
    {
        assert(chars@.subrange(start as int, end as int).drop_last() =~= chars@.subrange(
            start as int,
            end - 1,
        ));
        end = end - 1;
    }
    (start, end)
}

/// A copy of a text without the white space around it.
pub fn trimmed(s: &str) -> (r: String)
    ensures
        r@ == trim(s@),
{
    let chars = chars_of(s);
    let (start, end) = trim_bounds(&chars, 0, chars.len());
    assert(chars@.subrange(0, chars@.len() as int) =~= s@);
    s.substring_char(start, end).to_owned()
}

// ---------------------------------------------------------------------------
// Comma-separated lists
// ---------------------------------------------------------------------------

/// The pieces of a text between separators.
pub open spec fn split(s: Seq<char>, separator: char) -> Seq<Seq<char>>
    decreases s.len(),
{
    if s.len() == 0 {
        seq![seq![]]
    } else {
        let before = split(s.drop_last(), separator);
        if s.last() == separator {
            before.push(seq![])
        } else {
            before.drop_last().push(before.last().push(s.last()))
        }
    }
}

/// The trimmed texts of pieces, without those that are then empty.
pub open spec fn trimmed_entries(pieces: Seq<Seq<char>>) -> Seq<Seq<char>> {
    pieces.map_values(|piece: Seq<char>| trim(piece)).filter(|entry: Seq<char>| entry.len() > 0)
}

/// The entries of a comma-separated list.
pub open spec fn list_entries(s: Seq<char>) -> Seq<Seq<char>> {
    trimmed_entries(split(s, ','))
}

/// One more piece adds its trimmed text, unless that is empty.
proof fn lemma_trimmed_entries_push(pieces: Seq<Seq<char>>, piece: Seq<char>)
    ensures
        trimmed_entries(pieces.push(piece)) == if trim(piece).len() > 0 {
            trimmed_entries(pieces).push(trim(piece))
        } else {
            trimmed_entries(pieces)
        },
{
    let before = pieces.map_values(|p: Seq<char>| trim(p));
    let after = pieces.push(piece).map_values(|p: Seq<char>| trim(p));
    assert(after.drop_last() =~= before);
    reveal(Seq::filter);
}

/// The pieces of a text hold no separator.
proof fn lemma_split_pieces(s: Seq<char>, separator: char)
    ensures
        split(s, separator).len() > 0,
        forall|i: int|
            0 <= i < split(s, separator).len() ==> !(#[trigger] split(s, separator)[i]).contains(
                separator,
            ),
    decreases s.len(),
{
    if s.len() > 0 {
        lemma_split_pieces(s.drop_last(), separator);
        let before = split(s.drop_last(), separator);
        assert forall|i: int| 0 <= i < split(s, separator).len() implies !(
        #[trigger] split(s, separator)[i]).contains(separator) by {
            if i < before.len() - 1 || s.last() == separator && i < before.len() {
                assert(split(s, separator)[i] == before[i]);
            } else if s.last() != separator {
                let piece = before.last();
                assert(split(s, separator)[i] == piece.push(s.last()));
                if piece.push(s.last()).contains(separator) {
                    let j = choose|j: int|
                        0 <= j < piece.len() + 1 && piece.push(s.last())[j] == separator;
                    assert(piece[j] == separator);
                }
            }
        }
    }
}

/// The entries of a list are not empty, hold no comma, and have no white space around
/// them.
pub proof fn list_entries_are_clean(s: Seq<char>, i: int)
    requires
        0 <= i < list_entries(s).len(),
    ensures
        list_entries(s)[i].len() > 0,
        !list_entries(s)[i].contains(','),
        trim(list_entries(s)[i]) == list_entries(s)[i],
{
    let pieces = split(s, ',');
    lemma_split_pieces(s, ',');
    lemma_trimmed_entries_come_from(pieces, i);
    let k = choose|k: int|
        0 <= k < pieces.len() && trimmed_entries(pieces)[i] == trim(#[trigger] pieces[k]);
    trimmed_ends(pieces[k]);
    trim_is_idempotent(pieces[k]);
}

/// Each entry is the trimmed text of a piece, and not empty.
proof fn lemma_trimmed_entries_come_from(pieces: Seq<Seq<char>>, i: int)
    requires
        0 <= i < trimmed_entries(pieces).len(),
    ensures
        trimmed_entries(pieces)[i].len() > 0,
        exists|k: int|
            0 <= k < pieces.len() && trimmed_entries(pieces)[i] == trim(#[trigger] pieces[k]),
    decreases pieces.len(),
{
    if pieces.len() == 0 {
        reveal(Seq::filter);
    } else {
        let before = pieces.drop_last();
        assert(pieces =~= before.push(pieces.last()));
        lemma_trimmed_entries_push(before, pieces.last());
        if i < trimmed_entries(before).len() {
            lemma_trimmed_entries_come_from(before, i);
            let k = choose|k: int|
                0 <= k < before.len() && trimmed_entries(before)[i] == trim(#[trigger] before[k]);
            assert(pieces[k] == before[k]);
        } else {
            assert(trimmed_entries(pieces)[i] == trim(pieces[pieces.len() - 1]));
        }
    }
}

/// Appends the trimmed text of `input[start..end]`, unless it is empty.
fn push_entry(entries: &mut Vec<String>, input: &str, chars: &Vec<char>, start: usize, end: usize)
    requires
        chars@ == input@,
        start <= end <= chars@.len(),
    ensures
        ({
            let entry = trim(input@.subrange(start as int, end as int));
            texts(final(entries)@) == if entry.len() > 0 {
                texts(old(entries)@).push(entry)
            } else {
                texts(old(entries)@)
            }
        }),
{
    let (from, to) = trim_bounds(chars, start, end);
    if from < to {
        entries.push(input.substring_char(from, to).to_owned());
    }
    assert(texts(entries@) =~= if from < to {
        texts(old(entries)@).push(input@.subrange(from as int, to as int))
    } else {
        texts(old(entries)@)
    });
}

/// The file extensions of a comma-separated list.
pub fn parse_extensions(input: &str) -> (entries: Vec<String>)
    ensures
        texts(entries@) == list_entries(input@),
{
    let chars = chars_of(input);
    let mut entries: Vec<String> = Vec::new();
    let mut start: usize = 0;
    let mut i: usize = 0;
    proof {
        reveal(Seq::filter);
        assert(input@.take(0) =~= seq![]);
        assert(input@.subrange(0, 0) =~= seq![]);
        assert(split(seq![], ',').drop_last() =~= seq![]);
        assert(texts(entries@) =~= trimmed_entries(seq![]));
    }
    while i < chars.len()
        invariant
            chars@ == input@,
            start <= i <= chars@.len(),
            split(input@.take(i as int), ',').len() > 0,
            split(input@.take(i as int), ',').last() == input@.subrange(start as int, i as int),
            texts(entries@) == trimmed_entries(split(input@.take(i as int), ',').drop_last()),
        decreases chars@.len() - i,
    {
        let ghost before = split(input@.take(i as int), ',');
        let ghost after = split(input@.take(i + 1), ',');
        assert(input@.take(i + 1).drop_last() =~= input@.take(i as int));
        if chars[i] == ',' {
            push_entry(&mut entries, input, &chars, start, i);
            proof {
                assert(after.drop_last() =~= before);
                assert(before =~= before.drop_last().push(before.last()));
                lemma_trimmed_entries_push(before.drop_last(), before.last());
                assert(input@.subrange(i + 1, i + 1) =~= seq![]);
            }
            start = i + 1;
        } else {
            proof {
                assert(after.drop_last() =~= before.drop_last());
                assert(after.last() =~= input@.subrange(start as int, i + 1));
            }
        }
        i = i + 1;
    }
    push_entry(&mut entries, input, &chars, start, i);
    proof {
        let pieces = split(input@, ',');
        assert(input@.take(i as int) =~= input@);
        assert(pieces =~= pieces.drop_last().push(pieces.last()));
        lemma_trimmed_entries_push(pieces.drop_last(), pieces.last());
    }
    entries
}

// ---------------------------------------------------------------------------
// ASCII case
// ---------------------------------------------------------------------------

/// A character with an ASCII capital letter turned small.
pub open spec fn ascii_lower_char(c: char) -> char {
    if 'A' <= c <= 'Z' {
        (c as u32 + 32) as char
    } else {
        c
    }
}

/// A text with its ASCII capital letters turned small.
pub open spec fn ascii_lower(s: Seq<char>) -> Seq<char> {
    s.map_values(|c: char| ascii_lower_char(c))
}

/// Whether two texts are the same but for the case of ASCII letters.
pub fn same_ignoring_ascii_case(a: &str, b: &str) -> (same: bool)
    ensures
        same == (ascii_lower(a@) == ascii_lower(b@)),
{
    let left = chars_of(a);
    let right = chars_of(b);
    if left.len() != right.len() {
        assert(ascii_lower(a@).len() != ascii_lower(b@).len());
        return false;
    }
    let mut i: usize = 0;
    while i < left.len()
        invariant
            left@ == a@,
            right@ == b@,
            i <= left@.len() == right@.len(),
            forall|j: int|
                0 <= j < i ==> ascii_lower_char(#[trigger] a@[j]) == ascii_lower_char(b@[j]),
        decreases left@.len() - i,
    {
        if !same_char_ignoring_ascii_case(left[i], right[i]) {
            assert(ascii_lower(a@)[i as int] != ascii_lower(b@)[i as int]);
            return false;
        }
        i = i + 1;
    }
    assert(ascii_lower(a@) =~= ascii_lower(b@));
    true
}

/// Whether two characters are the same but for the case of an ASCII letter.
fn same_char_ignoring_ascii_case(a: char, b: char) -> (same: bool)
    ensures
        same == (ascii_lower_char(a) == ascii_lower_char(b)),
{
    let x: u32 = a as u32;
    let y: u32 = b as u32;
    let x_low: u32 = if 65 <= x && x <= 90 {
        x + 32
    } else {
        x
    };
    let y_low: u32 = if 65 <= y && y <= 90 {
        y + 32
    } else {
        y
    };
    x_low == y_low
}

// ---------------------------------------------------------------------------
// Ordering
// ---------------------------------------------------------------------------

/// The dictionary order of texts by code points.
pub open spec fn text_less(a: Seq<char>, b: Seq<char>) -> bool
    decreases a.len(),
{
    if b.len() == 0 {
        false
    } else if a.len() == 0 {
        true
    } else if a[0] != b[0] {
        a[0] < b[0]
    } else {
        text_less(a.drop_first(), b.drop_first())
    }
}

/// No text comes before itself.
pub proof fn text_less_irreflexive(a: Seq<char>)
    ensures
        !text_less(a, a),
    decreases a.len(),
{
    if a.len() > 0 {
        text_less_irreflexive(a.drop_first());
    }
}

/// What comes before a text comes before what that text comes before.
pub proof fn text_less_transitive(a: Seq<char>, b: Seq<char>, c: Seq<char>)
    requires
        text_less(a, b),
        text_less(b, c),
    ensures
        text_less(a, c),
    decreases a.len(),
{
    if a.len() > 0 && a[0] == b[0] && b[0] == c[0] {
        text_less_transitive(a.drop_first(), b.drop_first(), c.drop_first());
    }
}

/// Of two texts that differ, one comes before the other.
pub proof fn text_less_total(a: Seq<char>, b: Seq<char>)
    ensures
        a == b || text_less(a, b) || text_less(b, a),
    decreases a.len(),
{
    if a.len() > 0 && b.len() > 0 && a[0] == b[0] {
        text_less_total(a.drop_first(), b.drop_first());
        if a.drop_first() == b.drop_first() {
            assert(a =~= seq![a[0]] + a.drop_first());
            assert(b =~= seq![b[0]] + b.drop_first());
        }
    } else if a.len() == 0 && b.len() == 0 {
        assert(a =~= b);
    }
}

/// Of texts that begin with parts of one length, the parts decide where they differ.
pub proof fn text_less_concat(p: Seq<char>, s: Seq<char>, q: Seq<char>, t: Seq<char>)
    requires
        p.len() == q.len(),
    ensures
        text_less(p + s, q + t) == if p == q {
            text_less(s, t)
        } else {
            text_less(p, q)
        },
    decreases p.len(),
{
    if p.len() == 0 {
        assert(p =~= q);
        assert(p + s =~= s);
        assert(q + t =~= t);
    } else {
        let p1 = p.drop_first();
        let q1 = q.drop_first();
        text_less_concat(p1, s, q1, t);
        assert((p + s).drop_first() =~= p1 + s);
        assert((q + t).drop_first() =~= q1 + t);
        assert(p =~= seq![p[0]] + p1);
        assert(q =~= seq![q[0]] + q1);
    }
}

/// Numbers of one width are ordered as their digits are.
pub proof fn digits_order(width: nat, a: nat, b: nat)
    requires
        a < power_of_ten(width),
        b < power_of_ten(width),
    ensures
        digits(width, a).len() == width,
        digits(width, b).len() == width,
        digits(width, a) == digits(width, b) <==> a == b,
        text_less(digits(width, a), digits(width, b)) <==> a < b,
    decreases width,
{
    if width > 0 {
        let w = (width - 1) as nat;
        digits_order(w, a / 10, b / 10);
        let (p, q) = (digits(w, a / 10), digits(w, b / 10));
        let (x, y) = (digit(a % 10), digit(b % 10));
        assert(digits(width, a) =~= p + seq![x]);
        assert(digits(width, b) =~= q + seq![y]);
        text_less_concat(p, seq![x], q, seq![y]);
        reveal_with_fuel(text_less, 2);
        assert(text_less(seq![x], seq![y]) == (x < y));
        if digits(width, a) == digits(width, b) {
            assert((p + seq![x]).drop_last() =~= p);
            assert((q + seq![y]).drop_last() =~= q);
            assert((p + seq![x]).last() == (q + seq![y]).last());
        }
    } else {
        text_less_irreflexive(digits(0, 0));
    }
}

/// Whether a text comes before another in dictionary order.
pub fn comes_before(a: &str, b: &str) -> (before: bool)
    ensures
        before == text_less(a@, b@),
{
    let left = chars_of(a);
    let right = chars_of(b);
    let mut i: usize = 0;
    assert(a@.skip(0) =~= a@);
    assert(b@.skip(0) =~= b@);
    while i < left.len() && i < right.len() && left[i] == right[i]
        invariant
            left@ == a@,
            right@ == b@,
            i <= left@.len(),
            i <= right@.len(),
            text_less(a@, b@) == text_less(a@.skip(i as int), b@.skip(i as int)),
        decreases left@.len() - i,
    {
        assert(a@.skip(i as int).drop_first() =~= a@.skip(i + 1));
        assert(b@.skip(i as int).drop_first() =~= b@.skip(i + 1));
        i = i + 1;
    }
    if i == right.len() {
        false
    } else if i == left.len() {
        true
    } else {
        left[i] < right[i]
    }
}

} // verus!
