//! What holds of texts: their order, their words, and how dates and
//! dependencies are written.

use vstd::prelude::*;

use crate::calendar::{
    date_of, day_number, four_digit_year, lemma_day_has_date, lemma_months, lemma_year_length,
    lemma_year_range, month_days, utc_text, valid_date, Date,
};
use crate::db::{instant_of, sync_key};
use crate::digest::{hex_digit, hex_of};
use crate::digits::{
    all_digits, decimal, digit, digits_value, is_digit, lemma_decimal_digits, lemma_four_digits,
    lemma_two_digits, padded, parsed, zeros,
};
use crate::laws_requests::lemma_start_cut;
use crate::model::{shown_raw, DependencyModel};
use crate::split::{first_word_of, trim_start_by, until_space, white_space};
use crate::text::{text_order, Side};

verus! {

// ---------------------------------------------------------------------------
// Order
// ---------------------------------------------------------------------------

/// Of two texts the one with the smaller character at the first difference
/// comes first, and a text comes before what begins with it.
pub proof fn lemma_first_difference(a: Seq<char>, b: Seq<char>, i: int)
    requires
        0 <= i <= a.len(),
        i < b.len(),
        a.take(i) == b.take(i),
        i < a.len() ==> b[i] as int > a[i] as int,
    ensures
        text_order(a, b) == Side::Before,
        text_order(b, a) == Side::After,
    decreases i,
{
    if i > 0 {
        assert(a[0] == a.take(i)[0] && b[0] == b.take(i)[0]);
        let x = a.drop_first();
        let y = b.drop_first();
        assert(x.take(i - 1) =~= y.take(i - 1)) by {
            assert forall|k: int| 0 <= k < i - 1 implies x[k] == y[k] by {
                assert(a.take(i)[k + 1] == a[k + 1] && b.take(i)[k + 1] == b[k + 1]);
            }
        }
        lemma_first_difference(x, y, i - 1);
    }
}

// ---------------------------------------------------------------------------
// Words
// ---------------------------------------------------------------------------

proof fn lemma_until_space(s: Seq<char>)
    ensures
        until_space(s).len() <= s.len(),
        until_space(s) == s.take(until_space(s).len() as int),
        forall|i: int| 0 <= i < until_space(s).len() ==> !white_space(#[trigger] s[i]),
        until_space(s).len() < s.len() ==> white_space(s[until_space(s).len() as int]),
    decreases s.len(),
{
    if s.len() == 0 || white_space(s[0]) {
        assert(s.take(0) =~= Seq::<char>::empty());
    } else {
        let rest = s.drop_first();
        lemma_until_space(rest);
        let n = until_space(s).len() as int;
        assert(until_space(s) =~= s.take(n)) by {
            assert forall|k: int| 0 <= k < n implies until_space(s)[k] == s[k] by {
                if k > 0 {
                    assert(until_space(rest)[k - 1] == rest.take(n - 1)[k - 1]);
                }
            }
        }
        assert forall|i: int| 0 <= i < n implies !white_space(#[trigger] s[i]) by {
            if i > 0 {
                assert(!white_space(rest[i - 1]));
            }
        }
    }
}

/// The first word of a text stands behind nothing but white space, has none in
/// it, and ends at white space or with the text. A text has one just where it
/// has anything else.
pub proof fn lemma_first_word(s: Seq<char>) -> (at: int)
    ensures
        first_word_of(s) is None ==> forall|i: int| 0 <= i < s.len() ==> white_space(#[trigger] s[i]),
        first_word_of(s) is Some ==> ({
            let word = first_word_of(s)->0;
            let end = at + word.len();
            &&& 0 <= at && end <= s.len() && word.len() > 0 && s.subrange(at, end) == word
            &&& forall|i: int| 0 <= i < at ==> white_space(#[trigger] s[i])
            &&& forall|i: int| at <= i < end ==> !white_space(#[trigger] s[i])
            &&& end < s.len() ==> white_space(s[end])
        }),
{
    let rest = trim_start_by(s, |c: char| white_space(c));
    let at = s.len() - rest.len();
    lemma_start_cut(s, |c: char| white_space(c));
    assert forall|i: int| 0 <= i < at implies white_space(#[trigger] s[i]) by {
        assert((|c: char| white_space(c))(s[i]));
    }
    if rest.len() > 0 {
        lemma_until_space(rest);
        let word = until_space(rest);
        assert forall|i: int| at <= i < at + word.len() implies !white_space(#[trigger] s[i]) by {
            assert(s[i] == rest[i - at]);
        }
        assert(s.subrange(at, at + word.len()) =~= word) by {
            assert forall|k: int| 0 <= k < word.len() implies s[at + k] == word[k] by {
                assert(rest[k] == rest.take(word.len() as int)[k]);
            }
        }
        assert(!white_space(rest[0]));
        assert(word.len() > 0);
        if at + word.len() < s.len() {
            assert(s[at + word.len()] == rest[word.len() as int]);
        }
    }
    at
}

// ---------------------------------------------------------------------------
// Dependencies
// ---------------------------------------------------------------------------

/// A dependency is shown by its name, and by what it asks for with a space
/// between sign and version. What Sage cannot read is shown as it is.
pub proof fn lemma_dependency_shown(raw: Seq<char>, d: DependencyModel)
    ensures
        shown_raw(raw, None).name == raw && shown_raw(raw, None).req.len() == 0,
        shown_raw(raw, Some(d)).name == d.name,
        d.op is Some && d.version is Some ==> shown_raw(raw, Some(d)).req == d.op->0 + seq![' ']
            + d.version->0,
        d.op is Some && d.version is None ==> shown_raw(raw, Some(d)).req == d.op->0,
        d.op is None ==> shown_raw(raw, Some(d)).req.len() == 0,
{
}

// ---------------------------------------------------------------------------
// Days
// ---------------------------------------------------------------------------

/// The months have the days that they have, February one more in every fourth
/// year but those of full centuries that 400 does not divide.
pub proof fn lemma_month_days(year: int)
    ensures
        month_days(year, 1) == 31 && month_days(year, 3) == 31 && month_days(year, 5) == 31
            && month_days(year, 7) == 31 && month_days(year, 8) == 31 && month_days(year, 10) == 31
            && month_days(year, 12) == 31,
        month_days(year, 4) == 30 && month_days(year, 6) == 30 && month_days(year, 9) == 30
            && month_days(year, 11) == 30,
        year % 400 == 0 ==> month_days(year, 2) == 29,
        year % 100 == 0 && year % 400 != 0 ==> month_days(year, 2) == 28,
        year % 4 == 0 && year % 100 != 0 ==> month_days(year, 2) == 29,
        year % 4 != 0 ==> month_days(year, 2) == 28,
{
    assert(year % 400 == 0 ==> year % 4 == 0);
}

/// Days are counted one by one from the first of January 1970: the day after
/// has the next number, the day after the last of a month is the first of the
/// next, and the day after the last of December the first of January.
pub proof fn lemma_next_day(d: Date)
    requires
        valid_date(d),
    ensures
        day_number((Date { year: 1970, month: 1, day: 1 })) == 0,
        d.day < month_days(d.year, d.month) ==> day_number((Date { day: d.day + 1, ..d }))
            == day_number(d) + 1,
        d.day == month_days(d.year, d.month) && d.month < 12 ==> day_number(
            (Date { month: d.month + 1, day: 1, ..d }),
        ) == day_number(d) + 1,
        d.day == 31 && d.month == 12 ==> day_number((Date { year: d.year + 1, month: 1, day: 1 }))
            == day_number(d) + 1,
{
    lemma_months(d.year);
    lemma_months(d.year + 1);
    lemma_months(1970);
    lemma_year_length(d.year);
}

/// The characters of a date and a time, one by one.
proof fn lemma_twenty(
    year: Seq<char>,
    month: Seq<char>,
    day: Seq<char>,
    hour: Seq<char>,
    minute: Seq<char>,
    second: Seq<char>,
)
    requires
        year.len() == 4,
        month.len() == 2,
        day.len() == 2,
        hour.len() == 2,
        minute.len() == 2,
        second.len() == 2,
    ensures
        year + seq!['-'] + month + seq!['-'] + day + seq!['T'] + hour + seq![':'] + minute
            + seq![':'] + second + seq!['Z'] == seq![
            year[0],
            year[1],
            year[2],
            year[3],
            '-',
            month[0],
            month[1],
            '-',
            day[0],
            day[1],
            'T',
            hour[0],
            hour[1],
            ':',
            minute[0],
            minute[1],
            ':',
            second[0],
            second[1],
            'Z',
        ],
{
    let date = seq![
        year[0], year[1], year[2], year[3], '-', month[0], month[1], '-', day[0], day[1],
    ];
    let time = seq![hour[0], hour[1], ':', minute[0], minute[1], ':', second[0], second[1]];
    assert(year + seq!['-'] + month + seq!['-'] + day =~= date);
    assert(hour + seq![':'] + minute + seq![':'] + second =~= time);
    let whole = year + seq!['-'] + month + seq!['-'] + day + seq!['T'] + hour + seq![':'] + minute
        + seq![':'] + second + seq!['Z'];
    assert(whole =~= date + seq!['T'] + time + seq!['Z']);
}

/// The text of an instant has the date of its day and the time in it: from the
/// twenty characters the instant can be worked out again.
pub proof fn lemma_utc_text(unix: int) -> (parts: (Date, int, int, int))
    requires
        four_digit_year(unix),
    ensures
        ({
            let (d, h, m, s) = parts;
            &&& valid_date(d) && 0 <= h < 24 && 0 <= m < 60 && 0 <= s < 60
            &&& unix == 86_400 * day_number(d) + 3600 * h + 60 * m + s
            &&& utc_text(unix) == seq![
                digit((d.year / 1000) as nat),
                digit((d.year / 100 % 10) as nat),
                digit((d.year / 10 % 10) as nat),
                digit((d.year % 10) as nat),
                '-',
                digit((d.month / 10) as nat),
                digit((d.month % 10) as nat),
                '-',
                digit((d.day / 10) as nat),
                digit((d.day % 10) as nat),
                'T',
                digit((h / 10) as nat),
                digit((h % 10) as nat),
                ':',
                digit((m / 10) as nat),
                digit((m % 10) as nat),
                ':',
                digit((s / 10) as nat),
                digit((s % 10) as nat),
                'Z',
            ]
        }),
{
    let d = date_of(unix / 86_400);
    let secs = unix % 86_400;
    let h = secs / 3600;
    let m = (secs % 3600) / 60;
    let s = secs % 60;
    lemma_year_range(unix);
    lemma_day_has_date(unix / 86_400);
    lemma_four_digits(d.year);
    lemma_two_digits(d.month);
    lemma_two_digits(d.day);
    lemma_two_digits(h);
    lemma_two_digits(m);
    lemma_two_digits(s);
    assert(secs == 3600 * h + 60 * m + s);
    lemma_twenty(
        padded(d.year, 4),
        padded(d.month, 2),
        padded(d.day, 2),
        padded(h, 2),
        padded(m, 2),
        padded(s, 2),
    );
    (d, h, m, s)
}

/// A clock that has a reading is believed, and one that has none stands at the
/// beginning of 1970.
pub proof fn lemma_clock(seconds: u64)
    ensures
        seconds <= i64::MAX ==> instant_of(Some(seconds)) == seconds,
        instant_of(None) == 0,
{
}

// ---------------------------------------------------------------------------
// Numerals
// ---------------------------------------------------------------------------

/// The value of a hexadecimal digit.
pub open spec fn hex_value(c: char) -> int {
    if 48 <= c as int <= 57 {
        c as int - 48
    } else {
        c as int - 87
    }
}

/// Each byte is written as two digits, the higher first and none of them upper
/// case, and its value can be worked out from them.
pub proof fn lemma_hex_digits(bytes: Seq<u8>, i: int)
    requires
        0 <= i < bytes.len(),
    ensures
        hex_of(bytes).len() == 2 * bytes.len(),
        bytes[i] == 16 * hex_value(hex_of(bytes)[2 * i]) + hex_value(hex_of(bytes)[2 * i + 1]),
        0 <= hex_value(hex_of(bytes)[2 * i]) < 16,
        0 <= hex_value(hex_of(bytes)[2 * i + 1]) < 16,
{
    let b = bytes[i] as int;
    assert((2 * i) / 2 == i && (2 * i) % 2 == 0);
    assert((2 * i + 1) / 2 == i && (2 * i + 1) % 2 == 1);
    assert(hex_of(bytes)[2 * i] == hex_digit(b / 16));
    assert(hex_of(bytes)[2 * i + 1] == hex_digit(b % 16));
    lemma_hex_value(b / 16);
    lemma_hex_value(b % 16);
}

proof fn lemma_hex_value(n: int)
    requires
        0 <= n < 16,
    ensures
        hex_value(hex_digit(n)) == n,
{
    assert((n + 48) as char as int == n + 48);
    assert((n + 87) as char as int == n + 87);
}

/// A numeral with as many digits as it needs is followed by one digit more for
/// ten times the number.
pub proof fn lemma_numeral(n: nat, d: nat)
    requires
        d < 10,
        n > 0,
    ensures
        decimal(d) == seq![digit(d)],
        decimal(10 * n + d) == decimal(n).push(digit(d)),
        digit(d) as int == d + 48,
{
    assert((10 * n + d) / 10 == n && (10 * n + d) % 10 == d);
    assert(decimal(d) =~= seq![digit(d)]);
    assert(decimal(10 * n + d) =~= decimal(n).push(digit(d)));
}

proof fn lemma_value_of_zeros(count: nat, s: Seq<char>)
    requires
        all_digits(s),
    ensures
        digits_value(zeros(count) + s) == digits_value(s),
        all_digits(zeros(count) + s),
    decreases s.len(), count,
{
    let whole = zeros(count) + s;
    assert forall|i: int| 0 <= i < whole.len() implies is_digit(#[trigger] whole[i]) by {
        if i >= count {
            assert(is_digit(s[i - count]));
        }
    }
    if s.len() > 0 {
        assert forall|i: int| 0 <= i < s.len() - 1 implies is_digit(#[trigger] s.drop_last()[i]) by {
            assert(is_digit(s[i]));
        }
        assert(whole.drop_last() =~= zeros(count) + s.drop_last());
        lemma_value_of_zeros(count, s.drop_last());
    } else if count > 0 {
        let less = (count - 1) as nat;
        assert(whole.drop_last() =~= zeros(less) + s);
        lemma_value_of_zeros(less, s);
        assert(whole.last() == '0');
    } else {
        assert(whole =~= s);
    }
}

/// A numeral with zeros in front still has its value.
pub proof fn lemma_padded_value(n: nat, width: int)
    ensures
        all_digits(padded(n as int, width)),
        digits_value(padded(n as int, width)) == n,
{
    lemma_decimal_digits(n);
    let missing = width - decimal(n).len();
    let count = if missing > 0 {
        missing
    } else {
        0
    } as nat;
    lemma_value_of_zeros(count, decimal(n));
    assert(padded(n as int, width) =~= zeros(count) + decimal(n));
}

/// No two synchronizations share their place in the history.
pub proof fn lemma_sync_keys(at: i64, id: u64, later: i64, other: u64)
    requires
        at >= 0,
        later >= 0,
        sync_key(at, id) == sync_key(later, other),
    ensures
        at == later,
        id == other,
{
    lemma_padded_value(at as nat, 20);
    lemma_padded_value(later as nat, 20);
    lemma_padded_value(id as nat, 20);
    lemma_padded_value(other as nat, 20);
    let a = padded(at as int, 20);
    let b = padded(later as int, 20);
    let whole = sync_key(at, id);
    let same = sync_key(later, other);
    assert(whole[a.len() as int] == '-' && same[b.len() as int] == '-');
    if a.len() < b.len() {
        assert(same[a.len() as int] == b[a.len() as int]);
        assert(is_digit(b[a.len() as int]));
    } else if b.len() < a.len() {
        assert(whole[b.len() as int] == a[b.len() as int]);
        assert(is_digit(a[b.len() as int]));
    }
    assert(a =~= whole.take(a.len() as int));
    assert(b =~= same.take(b.len() as int));
    assert(padded(id as int, 20) =~= whole.skip(a.len() as int + 1));
    assert(padded(other as int, 20) =~= same.skip(b.len() as int + 1));
}

/// A number is read from digits, with or without a plus sign before them, where
/// it is not too large; from anything else none is read.
pub proof fn lemma_number_read(s: Seq<char>, max: u64, c: char)
    ensures
        s.len() > 0 && all_digits(s) && digits_value(s) <= max ==> parsed(s, max) == Some(
            digits_value(s) as u64,
        ) && parsed(seq!['+'] + s, max) == Some(digits_value(s) as u64),
        s.len() > 0 && all_digits(s) && digits_value(s) > max ==> parsed(s, max) is None && parsed(
            seq!['+'] + s,
            max,
        ) is None,
        s.len() == 0 ==> parsed(s, max) is None && parsed(seq!['+'] + s, max) is None,
        !all_digits(s) ==> parsed(seq!['+'] + s, max) is None,
        !all_digits(s) && s[0] != '+' ==> parsed(s, max) is None,
        all_digits(s) && '0' as int <= c as int <= '9' as int ==> digits_value(s.push(c)) == 10
            * digits_value(s) + (c as int - '0' as int),
        all_digits(s) <==> forall|i: int|
            0 <= i < s.len() ==> '0' as int <= (#[trigger] s[i]) as int <= '9' as int,
{
    let signed = seq!['+'] + s;
    assert(signed.drop_first() =~= s);
    assert(signed[0] == '+');
    if s.len() > 0 && all_digits(s) {
        assert(is_digit(s[0]));
    }
    assert(s.push(c).drop_last() =~= s);
    if all_digits(s) {
        assert forall|i: int| 0 <= i < s.len() implies '0' as int <= (#[trigger] s[i]) as int
            <= '9' as int by {
            assert(is_digit(s[i]));
        }
    }
    if forall|i: int| 0 <= i < s.len() ==> '0' as int <= (#[trigger] s[i]) as int <= '9' as int {
        assert forall|i: int| 0 <= i < s.len() implies is_digit(#[trigger] s[i]) by {
            assert('0' as int <= s[i] as int <= '9' as int);
        }
    }
}

} // verus!
