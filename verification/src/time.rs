//! Times of day: what the user may type for one, the one way it is written
//! down, and the number by which written times are put in order.

use vstd::prelude::*;
use vstd::slice::slice_subrange;
use crate::error::AppError;
use crate::text::{
    all_digits, chars_of, digit_char, digit_of, digit_value, find, first_index, is_digit,
    lemma_first_index, lemma_first_index_found, number, numeral, parse_number, reading,
};

verus! {

/// The characters that count in a typed time: digits and the colon.
pub open spec fn is_time_char(c: char) -> bool {
    is_digit(c) || c == ':'
}

/// A typed text with everything but digits and colons taken out.
pub open spec fn cleaned(s: Seq<char>) -> Seq<char> {
    s.filter(|c: char| is_time_char(c))
}

/// The digits in front of the first colon of a cleaned text.
pub open spec fn hour_token(s: Seq<char>) -> Seq<char> {
    cleaned(s).take(first_index(cleaned(s), ':'))
}

/// What follows the first colon of a cleaned text.
pub open spec fn minute_token(s: Seq<char>) -> Seq<char> {
    cleaned(s).skip(first_index(cleaned(s), ':') + 1)
}

/// The hour and the minute that a typed text names, if it names a time of
/// day: cleaned, it is an hour from 0 to 23, one colon, and a minute from 0
/// to 59, each in digits.
pub open spec fn clock(s: Seq<char>) -> Option<(nat, nat)> {
    if cleaned(s).contains(':') {
        match (reading(hour_token(s), 23), reading(minute_token(s), 59)) {
            (Some(hour), Some(minute)) => Some((hour, minute)),
            _ => None,
        }
    } else {
        None
    }
}

/// The one way a time of day is written down: the hour without a leading
/// zero, a colon, the minute in two digits.
pub open spec fn canonical(hour: nat, minute: nat) -> Seq<char> {
    numeral(hour) + seq![':', digit_char(minute / 10), digit_char(minute % 10)]
}

/// A text is a time of day as it is written down.
pub open spec fn is_canonical(time: Seq<char>) -> bool {
    clock(time) matches Some((hour, minute)) && time == canonical(hour, minute)
}

/// A text of the shape `H:MM` or `HH:MM`, `H` and `M` being digits.
pub open spec fn is_clock_text(t: Seq<char>) -> bool {
    &&& t.len() == 4 || t.len() == 5
    &&& t[t.len() - 3] == ':'
    &&& forall|i: int| 0 <= i < t.len() && i != t.len() - 3 ==> is_digit(#[trigger] t[i])
}

/// A written time with its colons taken out.
pub open spec fn without_colons(time: Seq<char>) -> Seq<char> {
    time.filter(|c: char| c != ':')
}

/// The largest magnitude of a number by which times are ordered.
pub const KEY_LIMIT: u64 = 2147483648;

/// The integer that `s` writes in base ten, with `+`, `-` or nothing in
/// front of its digits.
pub open spec fn integer(s: Seq<char>) -> Option<int> {
    if s.len() > 0 && s.first() == '-' {
        match reading(s.drop_first(), KEY_LIMIT as nat) {
            Some(n) => Some(-(n as int)),
            None => None,
        }
    } else if s.len() > 0 && s.first() == '+' {
        match reading(s.drop_first(), KEY_LIMIT as nat) {
            Some(n) => Some(n as int),
            None => None,
        }
    } else {
        match reading(s, KEY_LIMIT as nat) {
            Some(n) => Some(n as int),
            None => None,
        }
    }
}

/// The number by which a written time is put in order: its digits read as
/// one decimal integer, the colons left out, so that `9:30` gives 930 and
/// `14:05` gives 1405. A text that writes no integer of 32 bits this way has
/// no such number.
pub open spec fn order_key(time: Seq<char>) -> Option<int> {
    match integer(without_colons(time)) {
        Some(k) => if i32::MIN <= k <= i32::MAX {
            Some(k)
        } else {
            None
        },
        None => None,
    }
}

/// Cleaning a text, one character more: the character is kept if it is a
/// digit or a colon.
pub proof fn lemma_cleaned_push(s: Seq<char>, c: char)
    ensures
        cleaned(s.push(c)) == if is_time_char(c) {
            cleaned(s).push(c)
        } else {
            cleaned(s)
        },
{
    s.lemma_filter_push(c, |c: char| is_time_char(c));
}

/// Cleaning keeps a text made of digits and colons as it is.
pub proof fn lemma_cleaned_keeps(s: Seq<char>)
    requires
        forall|i: int| 0 <= i < s.len() ==> is_time_char(#[trigger] s[i]),
    ensures
        cleaned(s) == s,
    decreases s.len(),
{
    if s.len() > 0 {
        lemma_cleaned_keeps(s.drop_last());
        lemma_cleaned_push(s.drop_last(), s.last());
        assert(s.drop_last().push(s.last()) =~= s);
    } else {
        lemma_filter_nothing(s);
    }
}

/// Nothing is taken out of an empty text.
proof fn lemma_filter_nothing(s: Seq<char>)
    requires
        s.len() == 0,
    ensures
        cleaned(s) == s,
        without_colons(s) == s,
{
    reveal(Seq::filter);
}

/// Taking the colons out of a text, one character more.
pub proof fn lemma_without_colons_push(s: Seq<char>, c: char)
    ensures
        without_colons(s.push(c)) == if c != ':' {
            without_colons(s).push(c)
        } else {
            without_colons(s)
        },
{
    s.lemma_filter_push(c, |c: char| c != ':');
}

/// Every text of the shape `H:MM` or `HH:MM` whose hour is at most 23 and
/// whose minute is at most 59 names that hour and that minute.
pub proof fn lemma_clock_text_is_read(t: Seq<char>)
    requires
        is_clock_text(t),
        number(t.take(t.len() - 3)) <= 23,
        number(t.skip(t.len() - 2)) <= 59,
    ensures
        clock(t) == Some((number(t.take(t.len() - 3)), number(t.skip(t.len() - 2)))),
{
    let at = t.len() - 3;
    assert forall|i: int| 0 <= i < t.len() implies is_time_char(#[trigger] t[i]) by {}
    lemma_cleaned_keeps(t);
    assert forall|j: int| 0 <= j < at implies t[j] != ':' by {
        assert(is_digit(t[j]));
    }
    lemma_first_index(t, ':', at);
    assert(t.contains(':'));
    assert(all_digits(t.take(at)));
    assert(all_digits(t.skip(at + 1))) by {
        assert forall|i: int| 0 <= i < t.skip(at + 1).len() implies is_digit(
            #[trigger] t.skip(at + 1)[i],
        ) by {
            assert(t.skip(at + 1)[i] == t[at + 1 + i]);
        }
    }
}

/// A text names no time of day exactly if, once cleaned, it holds no colon,
/// or what stands before its first colon is no hour from 0 to 23, or what
/// stands behind it is no minute from 0 to 59.
pub proof fn lemma_clock_refused(t: Seq<char>)
    ensures
        clock(t) is None <==> {
            ||| !cleaned(t).contains(':')
            ||| hour_token(t).len() == 0 || !all_digits(hour_token(t)) || number(hour_token(t)) > 23
            ||| minute_token(t).len() == 0 || !all_digits(minute_token(t)) || number(
                minute_token(t),
            ) > 59
        },
{
}

/// Taking the colons out of digits changes nothing.
proof fn lemma_without_colons_digits(s: Seq<char>)
    requires
        all_digits(s),
    ensures
        without_colons(s) == s,
    decreases s.len(),
{
    if s.len() > 0 {
        assert(all_digits(s.drop_last())) by {
            assert forall|i: int| 0 <= i < s.drop_last().len() implies is_digit(
                #[trigger] s.drop_last()[i],
            ) by {
                assert(s.drop_last()[i] == s[i]);
            }
        }
        lemma_without_colons_digits(s.drop_last());
        lemma_without_colons_push(s.drop_last(), s.last());
        assert(s.drop_last().push(s.last()) =~= s);
    } else {
        lemma_filter_nothing(s);
    }
}

/// The number that one or two given digits write.
proof fn lemma_number_small(s: Seq<char>)
    requires
        1 <= s.len() <= 2,
        all_digits(s),
    ensures
        s.len() == 1 ==> number(s) == digit_value(s[0]),
        s.len() == 2 ==> number(s) == digit_value(s[0]) * 10 + digit_value(s[1]),
        number(s) <= 99,
{
    reveal_with_fuel(number, 3);
    assert(is_digit(s[0]));
    if s.len() == 2 {
        assert(is_digit(s[1]));
        assert(s.drop_last()[0] == s[0]);
    }
}

/// The digit for a number below ten stands for that number.
proof fn lemma_digit(d: nat)
    requires
        d < 10,
    ensures
        is_digit(digit_char(d)),
        digit_value(digit_char(d)) == d,
        d > 0 ==> digit_char(d) != '0',
{
}

/// The writing of a number below a hundred: one or two digits that write
/// it, the first of them no zero where there are two.
proof fn lemma_numeral_small(n: nat)
    requires
        n < 100,
    ensures
        numeral(n) == if n < 10 {
            seq![digit_char(n)]
        } else {
            seq![digit_char(n / 10), digit_char(n % 10)]
        },
        numeral(n).len() == if n < 10 {
            1nat
        } else {
            2nat
        },
        all_digits(numeral(n)),
        number(numeral(n)) == n,
        n >= 10 ==> numeral(n).first() != '0',
{
    reveal_with_fuel(numeral, 2);
    lemma_digit(n % 10);
    if n >= 10 {
        lemma_digit(n / 10);
        assert(numeral(n) =~= seq![digit_char(n / 10), digit_char(n % 10)]);
    }
    lemma_number_small(numeral(n));
}

/// The two digits in which a minute is written write that minute.
proof fn lemma_minute_digits(minute: nat)
    requires
        minute < 100,
    ensures
        all_digits(seq![digit_char(minute / 10), digit_char(minute % 10)]),
        number(seq![digit_char(minute / 10), digit_char(minute % 10)]) == minute,
{
    lemma_digit(minute / 10);
    lemma_digit(minute % 10);
    lemma_number_small(seq![digit_char(minute / 10), digit_char(minute % 10)]);
}

/// The number that orders a text of the shape `H:MM` or `HH:MM` is a hundred
/// times its hour plus its minute: `9:30` gives 930, `14:05` gives 1405.
pub proof fn lemma_clock_text_key(t: Seq<char>)
    requires
        is_clock_text(t),
    ensures
        order_key(t) == Some(
            (number(t.take(t.len() - 3)) * 100 + number(t.skip(t.len() - 2))) as int,
        ),
{
    let hour = t.take(t.len() - 3);
    let minute = t.skip(t.len() - 2);
    let colon = seq![':'];
    assert(all_digits(hour));
    assert(all_digits(minute)) by {
        assert forall|i: int| 0 <= i < minute.len() implies is_digit(#[trigger] minute[i]) by {
            assert(minute[i] == t[t.len() - 2 + i]);
        }
    }
    let plain = hour + minute;
    assert(without_colons(t) == plain) by {
        let keep = |c: char| c != ':';
        assert(t =~= hour + colon + minute);
        Seq::filter_distributes_over_add(hour + colon, minute, keep);
        Seq::filter_distributes_over_add(hour, colon, keep);
        lemma_without_colons_digits(hour);
        lemma_without_colons_digits(minute);
        lemma_filter_nothing(Seq::<char>::empty());
        lemma_without_colons_push(Seq::<char>::empty(), ':');
        assert(Seq::<char>::empty().push(':') =~= colon);
        assert(hour + Seq::<char>::empty() + minute =~= plain);
    }
    assert(all_digits(plain));
    assert(number(plain) == number(hour) * 100 + number(minute)) by {
        reveal_with_fuel(number, 3);
        assert(plain.drop_last().drop_last() =~= hour);
        assert(plain.drop_last().last() == minute[0]);
        assert(plain.last() == minute[1]);
        assert(minute.drop_last().last() == minute[0]);
    }
    lemma_number_small(hour);
    lemma_number_small(minute);
    assert(is_digit(plain.first())) by {
        assert(plain.first() == hour[0]);
    }
}

/// The written form of a time of day has the shape `H:MM` or `HH:MM`, with
/// one digit for an hour below ten and no zero in front of a later hour;
/// read again it names the same time, and the number that orders it is a
/// hundred times the hour plus the minute.
pub proof fn lemma_canonical(hour: nat, minute: nat)
    requires
        hour <= 23,
        minute <= 59,
    ensures
        is_clock_text(canonical(hour, minute)),
        canonical(hour, minute).len() == if hour < 10 {
            4nat
        } else {
            5nat
        },
        hour >= 10 ==> canonical(hour, minute).first() != '0',
        clock(canonical(hour, minute)) == Some((hour, minute)),
        is_canonical(canonical(hour, minute)),
        order_key(canonical(hour, minute)) == Some((hour * 100 + minute) as int),
{
    let t = canonical(hour, minute);
    let digits = seq![digit_char(minute / 10), digit_char(minute % 10)];
    lemma_numeral_small(hour);
    lemma_minute_digits(minute);
    assert(t.take(t.len() - 3) =~= numeral(hour));
    assert(t.skip(t.len() - 2) =~= digits);
    assert(is_clock_text(t)) by {
        assert forall|i: int| 0 <= i < t.len() && i != t.len() - 3 implies is_digit(
            #[trigger] t[i],
        ) by {
            if i < t.len() - 3 {
                assert(t[i] == numeral(hour)[i]);
            } else {
                assert(t[i] == digits[i - (t.len() - 2)]);
            }
        }
    }
    assert(t.first() == numeral(hour).first());
    lemma_clock_text_is_read(t);
    lemma_clock_text_key(t);
}

/// A time of day as it is written down is made of digits and one colon, is
/// not empty, and has a number by which it is ordered.
pub proof fn lemma_canonical_chars(time: Seq<char>)
    requires
        is_canonical(time),
    ensures
        time.len() >= 4,
        forall|i: int| 0 <= i < time.len() ==> is_time_char(#[trigger] time[i]),
        order_key(time) is Some,
{
    let (hour, minute) = clock(time).unwrap();
    lemma_canonical(hour, minute);
}

/// Whether `c` counts in a typed time.
fn char_is_time(c: char) -> (yes: bool)
    ensures
        yes == is_time_char(c),
{
    (c >= '0' && c <= '9') || c == ':'
}

/// Reads a typed time of day and writes it down: everything but digits and
/// colons is passed over; what is left has to be an hour from 0 to 23, one
/// colon, and a minute from 0 to 59. The result is the hour without a
/// leading zero, a colon, and the minute in two digits. Any other text is
/// refused as an invalid time.
pub fn parse_time(input: &str) -> (time: Result<String, AppError>)
    ensures
        match clock(input@) {
            Some((hour, minute)) => time matches Ok(written) && written@ == canonical(
                hour,
                minute,
            ),
            None => time matches Err(error) && error.is_invalid_time(),
        },
{
    let typed = chars_of(input);
    let mut kept: Vec<char> = Vec::new();
    let mut i: usize = 0;
    proof {
        lemma_filter_nothing(typed@.take(0));
    }
    while i < typed.len()
        invariant
            i <= typed@.len(),
            kept@ == cleaned(typed@.take(i as int)),
        decreases typed@.len() - i,
    {
        let c = typed[i];
        proof {
            lemma_cleaned_push(typed@.take(i as int), c);
            assert(typed@.take(i + 1) =~= typed@.take(i as int).push(c));
        }
        if char_is_time(c) {
            kept.push(c);
        }
        i += 1;
    }
    assert(typed@.take(i as int) =~= typed@);
    let at = find(kept.as_slice(), ':');
    proof {
        lemma_first_index_found(kept@, ':');
    }
    if at >= kept.len() {
        return Err(AppError::invalid_time());
    }
    let hour = parse_number(slice_subrange(kept.as_slice(), 0, at), 23);
    let minute = parse_number(slice_subrange(kept.as_slice(), at + 1, kept.len()), 59);
    proof {
        assert(kept@.subrange(0, at as int) =~= hour_token(input@));
        assert(kept@.subrange(at + 1, kept@.len() as int) =~= minute_token(input@));
    }
    match (hour, minute) {
        (Some(hour), Some(minute)) => {
            let hour = hour as u8;
            let minute = minute as u8;
            let mut written = String::new();
            if hour >= 10 {
                written.push(digit_of(hour / 10));
            }
            written.push(digit_of(hour % 10));
            written.push(':');
            written.push(digit_of(minute / 10));
            written.push(digit_of(minute % 10));
            proof {
                lemma_numeral_small(hour as nat);
                assert(written@ =~= canonical(hour as nat, minute as nat));
            }
            Ok(written)
        },
        _ => Err(AppError::invalid_time()),
    }
}

/// The number by which a written time is put in order, if it has one.
pub fn time_key(time: &str) -> (key: Option<i32>)
    ensures
        key == match order_key(time@) {
            Some(k) => Some(k as i32),
            None => None,
        },
{
    let written = chars_of(time);
    let mut plain: Vec<char> = Vec::new();
    let mut i: usize = 0;
    proof {
        lemma_filter_nothing(written@.take(0));
    }
    while i < written.len()
        invariant
            i <= written@.len(),
            plain@ == without_colons(written@.take(i as int)),
        decreases written@.len() - i,
    {
        let c = written[i];
        proof {
            lemma_without_colons_push(written@.take(i as int), c);
            assert(written@.take(i + 1) =~= written@.take(i as int).push(c));
        }
        if c != ':' {
            plain.push(c);
        }
        i += 1;
    }
    assert(written@.take(i as int) =~= written@);
    let all = plain.as_slice();
    let minus = all.len() > 0 && all[0] == '-';
    let plus = all.len() > 0 && all[0] == '+';
    let digits = if minus || plus {
        slice_subrange(all, 1, all.len())
    } else {
        all
    };
    proof {
        if minus || plus {
            assert(digits@ =~= plain@.drop_first());
        }
    }
    match parse_number(digits, KEY_LIMIT) {
        Some(n) => {
            if minus {
                Some((0 - n as i64) as i32)
            } else if n <= 2147483647 {
                Some(n as i32)
            } else {
                None
            }
        },
        None => None,
    }
}

} // verus!
