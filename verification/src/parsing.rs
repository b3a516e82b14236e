//! Measurement records and the grammar of a recording file.
//!
//! A file holds one record or more. A record is six numerals, separated
//! by runs of blanks (space, tab, carriage return, line feed), and the
//! sixth is followed by a blank or by the end of the file. A numeral is a
//! decimal literal, with or without a sign, a fraction and an exponent, or
//! one of the words `NaN`, `Infinity` and `-Infinity`. The first record
//! starts the file; blanks alone part one record from the next.
//!
//! A file is taken as a whole or not at all. Where a numeral opens a
//! record that then breaks off, the file is rejected. What follows the
//! last record and begins with no numeral is passed over.
//!
//! The grammar finds where each numeral stands and of which kind it is.
//! The value of a word is fixed; the value of a decimal literal is asked
//! of the caller, who is handed the bytes of the literal.

use vstd::prelude::*;
use vstd::slice::slice_subrange;
use crate::bits::{INFINITY, NAN, NEG_INFINITY};

verus! {

/// One measurement record. Each field is the bit pattern of a binary64
/// number; the order of the fields is their order on a line of input.
#[derive(Clone, Copy, Debug, PartialEq, Eq, Structural)]
pub struct DataLine {
    pub time: u64,
    pub area: u64,
    pub speed: u64,
    pub midline: u64,
    pub x: u64,
    pub y: u64,
}

/// The kind of a numeral.
#[derive(Clone, Copy, Debug, PartialEq, Eq, Structural)]
pub enum Literal {
    /// A decimal literal.
    Decimal,
    /// The word `NaN`.
    NotANumber,
    /// The word `Infinity`.
    Infinite,
    /// The word `-Infinity`.
    NegInfinite,
}

/// A numeral in a file: its kind, and the bytes from `start` up to, and
/// not including, `end`.
#[derive(Clone, Copy, Debug, PartialEq, Eq, Structural)]
pub struct Token {
    pub kind: Literal,
    pub start: usize,
    pub end: usize,
}

/// The six numerals of one record.
#[derive(Clone, Copy, Debug, PartialEq, Eq, Structural)]
pub struct RawLine {
    pub time: Token,
    pub area: Token,
    pub speed: Token,
    pub midline: Token,
    pub x: Token,
    pub y: Token,
}

/// The place in a file at which it stopped being a recording.
#[derive(Clone, Copy, Debug, PartialEq, Eq, Structural)]
pub struct ParseError {
    pub offset: usize,
}

pub const TAB: u8 = 9;

pub const LINE_FEED: u8 = 10;

pub const CARRIAGE_RETURN: u8 = 13;

pub const SPACE: u8 = 32;

pub const PLUS: u8 = 43;

pub const MINUS: u8 = 45;

pub const POINT: u8 = 46;

pub const UPPER_E: u8 = 69;

pub const LOWER_E: u8 = 101;

/// The byte is a blank.
pub open spec fn is_blank(b: u8) -> bool {
    b == SPACE || b == TAB || b == CARRIAGE_RETURN || b == LINE_FEED
}

/// The byte is a decimal digit.
pub open spec fn is_digit(b: u8) -> bool {
    48 <= b <= 57
}

/// The byte is a sign.
pub open spec fn is_sign(b: u8) -> bool {
    b == PLUS || b == MINUS
}

/// The byte opens an exponent.
pub open spec fn is_exponent_mark(b: u8) -> bool {
    b == LOWER_E || b == UPPER_E
}

/// The word `NaN`.
pub open spec fn nan_word() -> Seq<u8> {
    seq![78u8, 97u8, 78u8]
}

/// The word `Infinity`.
pub open spec fn infinity_word() -> Seq<u8> {
    seq![73u8, 110u8, 102u8, 105u8, 110u8, 105u8, 116u8, 121u8]
}

/// The word stands in `s` at `i`.
pub open spec fn has_word(s: Seq<u8>, i: int, word: Seq<u8>) -> bool {
    0 <= i && i + word.len() <= s.len() && s.subrange(i, i + word.len()) == word
}

/// Where the run of digits that starts at `i` ends.
pub open spec fn digits_end(s: Seq<u8>, i: int) -> int
    decreases s.len() - i,
{
    if 0 <= i < s.len() && is_digit(s[i]) {
        digits_end(s, i + 1)
    } else {
        i
    }
}

/// Where the run of blanks that starts at `i` ends.
pub open spec fn blanks_end(s: Seq<u8>, i: int) -> int
    decreases s.len() - i,
{
    if 0 <= i < s.len() && is_blank(s[i]) {
        blanks_end(s, i + 1)
    } else {
        i
    }
}

/// Where the blanks that end a record end: behind the run of blanks that
/// starts at `i`, and no further than behind the first line feed in it.
pub open spec fn separator_end(s: Seq<u8>, i: int) -> int
    decreases s.len() - i,
{
    if 0 <= i < s.len() && is_blank(s[i]) {
        if s[i] == LINE_FEED {
            i + 1
        } else {
            separator_end(s, i + 1)
        }
    } else {
        i
    }
}

/// The place after a sign at `i`, or `i` where there is none.
pub open spec fn sign_end(s: Seq<u8>, i: int) -> int {
    if 0 <= i < s.len() && is_sign(s[i]) {
        i + 1
    } else {
        i
    }
}

/// Where the sign, the digits and the fraction of a decimal literal at
/// `i` end: digits with or without a point and further digits, or a point
/// and digits.
pub open spec fn mantissa_end(s: Seq<u8>, i: int) -> Option<int> {
    let a = sign_end(s, i);
    let b = digits_end(s, a);
    if b > a {
        if b < s.len() && s[b] == POINT {
            Some(digits_end(s, b + 1))
        } else {
            Some(b)
        }
    } else if 0 <= a < s.len() && s[a] == POINT && digits_end(s, a + 1) > a + 1 {
        Some(digits_end(s, a + 1))
    } else {
        None
    }
}

/// Where the exponent that may follow a mantissa ending at `m` ends: a
/// mark, with or without a sign, and digits; `m` where there is none.
pub open spec fn exponent_end(s: Seq<u8>, m: int) -> int {
    if 0 <= m < s.len() && is_exponent_mark(s[m]) && digits_end(s, sign_end(s, m + 1)) > sign_end(
        s,
        m + 1,
    ) {
        digits_end(s, sign_end(s, m + 1))
    } else {
        m
    }
}

/// Where the decimal literal at `i` ends, if one stands there.
pub open spec fn decimal_end(s: Seq<u8>, i: int) -> Option<int> {
    match mantissa_end(s, i) {
        Some(m) => Some(exponent_end(s, m)),
        None => None,
    }
}

/// The numeral that stands at `i`, if any: a decimal literal as long as
/// it can be, else one of the three words.
pub open spec fn token_at(s: Seq<u8>, i: int) -> Option<Token> {
    if let Some(e) = decimal_end(s, i) {
        Some(Token { kind: Literal::Decimal, start: i as usize, end: e as usize })
    } else if has_word(s, i, nan_word()) {
        Some(Token { kind: Literal::NotANumber, start: i as usize, end: (i + 3) as usize })
    } else if 0 <= i < s.len() && s[i] == MINUS && has_word(s, i + 1, infinity_word()) {
        Some(Token { kind: Literal::NegInfinite, start: i as usize, end: (i + 9) as usize })
    } else if has_word(s, i, infinity_word()) {
        Some(Token { kind: Literal::Infinite, start: i as usize, end: (i + 8) as usize })
    } else {
        None
    }
}

/// What ends a record whose sixth numeral ends at `i`: the end of the
/// file, or the blanks from `i` on, up to their first line feed. Nothing
/// where anything but a blank follows the numeral.
pub open spec fn token_end_at(s: Seq<u8>, i: int) -> Option<int> {
    if i >= s.len() {
        Some(i)
    } else if is_blank(s[i]) {
        Some(separator_end(s, i))
    } else {
        None
    }
}

/// A numeral at `i` and the run of blanks behind it: the numeral and the
/// place behind the blanks, or the place where either is missing.
pub open spec fn field_at(s: Seq<u8>, i: int) -> Result<(Token, int), int> {
    match token_at(s, i) {
        Some(t) => if blanks_end(s, t.end as int) > t.end {
            Ok((t, blanks_end(s, t.end as int)))
        } else {
            Err(t.end as int)
        },
        None => Err(i),
    }
}

/// The sixth numeral at `i` and what ends the record: the numeral and the
/// place where the next record may start, or the place where either is
/// missing.
pub open spec fn last_field_at(s: Seq<u8>, i: int) -> Result<(Token, int), int> {
    match token_at(s, i) {
        Some(t) => match token_end_at(s, t.end as int) {
            Some(next) => Ok((t, next)),
            None => Err(t.end as int),
        },
        None => Err(i),
    }
}

/// The record at `i`: its numerals and the place where the next record
/// may start, or the place where the bytes stop matching.
pub open spec fn record_at(s: Seq<u8>, i: int) -> Result<(RawLine, int), int> {
    match field_at(s, i) {
        Err(o) => Err(o),
        Ok((time, i1)) => match field_at(s, i1) {
            Err(o) => Err(o),
            Ok((area, i2)) => match field_at(s, i2) {
                Err(o) => Err(o),
                Ok((speed, i3)) => match field_at(s, i3) {
                    Err(o) => Err(o),
                    Ok((midline, i4)) => match field_at(s, i4) {
                        Err(o) => Err(o),
                        Ok((x, i5)) => match last_field_at(s, i5) {
                            Err(o) => Err(o),
                            Ok((y, next)) => Ok(
                                (RawLine { time, area, speed, midline, x, y }, next),
                            ),
                        },
                    },
                },
            },
        },
    }
}

/// `lines` and then what `rest` holds, or the failure of `rest`.
pub open spec fn after(lines: Seq<RawLine>, rest: Result<Seq<RawLine>, int>) -> Result<
    Seq<RawLine>,
    int,
> {
    match rest {
        Ok(more) => Ok(lines + more),
        Err(o) => Err(o),
    }
}

/// Where the record is looked for that comes next from `i` on: at `i` for
/// the first record of a file, behind the blanks at `i` for any other.
pub open spec fn record_start(s: Seq<u8>, i: int, first: bool) -> int {
    if first {
        i
    } else {
        blanks_end(s, i)
    }
}

/// The records from `i` to the end of the file. Where no numeral stands
/// at the start of a record, the records have ended; that is a failure
/// for the first record of a file and the end of the list for any other.
/// Where a numeral stands there and the record breaks off, the file is
/// rejected as a whole. (A record always starts at `i` or behind it and
/// ends behind its start, within the file: `lemma_runs`,
/// `lemma_record_at`.)
pub open spec fn records_from(s: Seq<u8>, i: int, first: bool) -> Result<Seq<RawLine>, int>
    decreases s.len() - i,
{
    let start = record_start(s, i, first);
    if token_at(s, start) is None {
        if first {
            Err(start)
        } else {
            Ok(Seq::empty())
        }
    } else {
        match record_at(s, start) {
            Ok((line, next)) => if i <= start < next <= s.len() {
                after(seq![line], records_from(s, next, false))
            } else {
                Err(start)
            },
            Err(o) => Err(o),
        }
    }
}

/// The records of a file, or the offset of the byte at which it stopped
/// being a recording.
pub open spec fn parse(s: Seq<u8>) -> Result<Seq<RawLine>, int> {
    records_from(s, 0, true)
}

/// Runs of digits and of blanks, and the blanks that end a record, end
/// within the file and not before they start.
pub proof fn lemma_runs(s: Seq<u8>, i: int)
    requires
        0 <= i <= s.len(),
    ensures
        i <= digits_end(s, i) <= s.len(),
        i <= blanks_end(s, i) <= s.len(),
        i <= separator_end(s, i) <= blanks_end(s, i),
        i < s.len() && is_blank(s[i]) ==> i < separator_end(s, i),
        forall|j: int| i <= j < blanks_end(s, i) ==> is_blank(#[trigger] s[j]),
        blanks_end(s, i) < s.len() ==> !is_blank(s[blanks_end(s, i)]),
    decreases s.len() - i,
{
    if i < s.len() {
        lemma_runs(s, i + 1);
    }
}

/// A numeral is not empty and lies within the file.
pub proof fn lemma_token_at(s: Seq<u8>, i: int)
    requires
        0 <= i <= s.len(),
        s.len() <= usize::MAX,
        token_at(s, i) is Some,
    ensures
        token_at(s, i).unwrap().start == i,
        i < token_at(s, i).unwrap().end <= s.len(),
{
    let a = sign_end(s, i);
    lemma_runs(s, a);
    if a < s.len() {
        lemma_runs(s, a + 1);
    }
    let b = digits_end(s, a);
    if b < s.len() {
        lemma_runs(s, b + 1);
    }
    if let Some(m) = mantissa_end(s, i) {
        if m < s.len() {
            let c = sign_end(s, m + 1);
            lemma_runs(s, c);
        }
    }
}

/// A record is not empty and lies within the file, and so does each of
/// its numerals, one after the other.
pub proof fn lemma_record_at(s: Seq<u8>, i: int)
    requires
        0 <= i <= s.len(),
        s.len() <= usize::MAX,
        record_at(s, i) is Ok,
    ensures
        i < record_at(s, i)->Ok_0.1 <= s.len(),
        ({
            let line = record_at(s, i)->Ok_0.0;
            &&& i == line.time.start < line.time.end < line.area.start < line.area.end
                < line.speed.start < line.speed.end < line.midline.start < line.midline.end
                < line.x.start < line.x.end < line.y.start < line.y.end <= record_at(s, i)->Ok_0.1
            &&& token_at(s, line.time.start as int) == Some(line.time)
            &&& token_at(s, line.area.start as int) == Some(line.area)
            &&& token_at(s, line.speed.start as int) == Some(line.speed)
            &&& token_at(s, line.midline.start as int) == Some(line.midline)
            &&& token_at(s, line.x.start as int) == Some(line.x)
            &&& token_at(s, line.y.start as int) == Some(line.y)
        }),
{
    lemma_token_at(s, i);
    let (time, i1) = field_at(s, i)->Ok_0;
    lemma_runs(s, time.end as int);
    lemma_token_at(s, i1);
    let (area, i2) = field_at(s, i1)->Ok_0;
    lemma_runs(s, area.end as int);
    lemma_token_at(s, i2);
    let (speed, i3) = field_at(s, i2)->Ok_0;
    lemma_runs(s, speed.end as int);
    lemma_token_at(s, i3);
    let (midline, i4) = field_at(s, i3)->Ok_0;
    lemma_runs(s, midline.end as int);
    lemma_token_at(s, i4);
    let (x, i5) = field_at(s, i4)->Ok_0;
    lemma_runs(s, x.end as int);
    lemma_token_at(s, i5);
    let (y, next) = last_field_at(s, i5)->Ok_0;
    lemma_runs(s, y.end as int);
}

/// The numerals of a record lie within the file, each is what the grammar
/// finds at its place, and they follow one another.
pub open spec fn well_placed(s: Seq<u8>, line: RawLine) -> bool {
    &&& line.time.start < line.time.end < line.area.start < line.area.end < line.speed.start
        < line.speed.end < line.midline.start < line.midline.end < line.x.start < line.x.end
        < line.y.start < line.y.end <= s.len()
    &&& token_at(s, line.time.start as int) == Some(line.time)
    &&& token_at(s, line.area.start as int) == Some(line.area)
    &&& token_at(s, line.speed.start as int) == Some(line.speed)
    &&& token_at(s, line.midline.start as int) == Some(line.midline)
    &&& token_at(s, line.x.start as int) == Some(line.x)
    &&& token_at(s, line.y.start as int) == Some(line.y)
}

/// Every record found from `i` on is well placed, and each record starts
/// behind the one before it.
pub proof fn lemma_records_from(s: Seq<u8>, i: int, first: bool, k: int)
    requires
        0 <= i <= s.len(),
        s.len() <= usize::MAX,
        records_from(s, i, first) is Ok,
        0 <= k < records_from(s, i, first)->Ok_0.len(),
    ensures
        well_placed(s, records_from(s, i, first)->Ok_0[k]),
        i <= records_from(s, i, first)->Ok_0[k].time.start,
    decreases s.len() - i,
{
    let start = record_start(s, i, first);
    lemma_runs(s, i);
    if token_at(s, start) is Some {
        if let Ok((line, next)) = record_at(s, start) {
            lemma_record_at(s, start);
            if k > 0 {
                lemma_records_from(s, next, false, k - 1);
                let more = records_from(s, next, false)->Ok_0;
                assert((seq![line] + more)[k] == more[k - 1]);
            }
        }
    }
}

/// Every record of an accepted file is well placed.
pub proof fn lemma_parse_tokens(s: Seq<u8>, k: int)
    requires
        s.len() <= usize::MAX,
        parse(s) is Ok,
        0 <= k < parse(s)->Ok_0.len(),
    ensures
        well_placed(s, parse(s)->Ok_0[k]),
{
    lemma_records_from(s, 0, true, k);
}

/// A file that is accepted holds at least one record.
pub proof fn lemma_parse_not_empty(s: Seq<u8>)
    requires
        parse(s) is Ok,
    ensures
        parse(s)->Ok_0.len() >= 1,
{
}

/// Every byte is a blank.
pub open spec fn all_blank(b: Seq<u8>) -> bool {
    forall|i: int| 0 <= i < b.len() ==> is_blank(#[trigger] b[i])
}

/// Every byte of `s` from `p` on is a blank.
pub open spec fn blank_from(s: Seq<u8>, p: int) -> bool {
    forall|j: int| p <= j < s.len() ==> is_blank(#[trigger] s[j])
}

/// A run of blanks that meets nothing else ends with the file.
proof fn lemma_blank_run(s: Seq<u8>, i: int)
    requires
        0 <= i <= s.len(),
        blank_from(s, i),
    ensures
        blanks_end(s, i) == s.len(),
    decreases s.len() - i,
{
    if i < s.len() {
        lemma_blank_run(s, i + 1);
    }
}

/// No numeral starts at a blank or at the end of the file.
proof fn lemma_no_token_at_blank(s: Seq<u8>, p: int)
    requires
        0 <= p <= s.len(),
        p < s.len() ==> is_blank(s[p]),
    ensures
        token_at(s, p) is None,
{
    if p < s.len() {
        assert(has_word(s, p, nan_word()) ==> s.subrange(p, p + 3)[0] == nan_word()[0]);
        assert(has_word(s, p, infinity_word()) ==> s.subrange(p, p + 8)[0] == infinity_word()[0]);
    }
}

/// Where only blanks are left behind a record, no further record is
/// found and none is missed.
proof fn lemma_only_blanks(s: Seq<u8>, p: int)
    requires
        0 <= p <= s.len(),
        blank_from(s, p),
    ensures
        records_from(s, p, false) == Ok::<Seq<RawLine>, int>(Seq::empty()),
{
    lemma_blank_run(s, p);
    lemma_no_token_at_blank(s, s.len() as int);
}

/// Blanks behind a file do not move the end of a run of digits in it.
proof fn lemma_digits_before_blanks(s: Seq<u8>, b: Seq<u8>, i: int)
    requires
        all_blank(b),
        0 <= i <= s.len(),
    ensures
        digits_end(s + b, i) == digits_end(s, i),
    decreases s.len() - i,
{
    let t = s + b;
    if i < s.len() {
        assert(t[i] == s[i]);
        if is_digit(s[i]) {
            lemma_digits_before_blanks(s, b, i + 1);
        }
    } else if b.len() > 0 {
        assert(t[i] == b[0]);
    }
}

/// Blanks behind a file do not change whether a word stands in it.
proof fn lemma_word_before_blanks(s: Seq<u8>, b: Seq<u8>, i: int, word: Seq<u8>)
    requires
        all_blank(b),
        0 <= i <= s.len(),
        word.len() > 0,
        forall|k: int| 0 <= k < word.len() ==> !is_blank(#[trigger] word[k]),
    ensures
        has_word(s + b, i, word) == has_word(s, i, word),
{
    let t = s + b;
    if i + word.len() <= s.len() {
        assert(t.subrange(i, i + word.len()) =~= s.subrange(i, i + word.len()));
    } else if i + word.len() <= t.len() {
        let k = s.len() - i;
        assert(t.subrange(i, i + word.len())[k] == t[s.len() as int]);
        assert(t[s.len() as int] == b[0]);
        assert(!is_blank(word[k]));
    }
}

/// Blanks behind a file do not change the numerals in it.
proof fn lemma_token_before_blanks(s: Seq<u8>, b: Seq<u8>, i: int)
    requires
        all_blank(b),
        0 <= i <= s.len(),
    ensures
        token_at(s + b, i) == token_at(s, i),
{
    let t = s + b;
    assert(forall|j: int| 0 <= j < s.len() ==> t[j] == s[j]);
    assert(forall|j: int| s.len() <= j < t.len() ==> t[j] == b[j - s.len()] && is_blank(t[j]));
    let a = sign_end(s, i);
    assert(sign_end(t, i) == a);
    lemma_runs(s, a);
    lemma_digits_before_blanks(s, b, a);
    let d = digits_end(s, a);
    if d < s.len() {
        lemma_runs(s, d + 1);
        lemma_digits_before_blanks(s, b, d + 1);
    }
    if a < s.len() {
        lemma_runs(s, a + 1);
        lemma_digits_before_blanks(s, b, a + 1);
    }
    assert(mantissa_end(t, i) == mantissa_end(s, i));
    if let Some(m) = mantissa_end(s, i) {
        if m < s.len() {
            let c = sign_end(s, m + 1);
            assert(sign_end(t, m + 1) == c);
            lemma_digits_before_blanks(s, b, c);
        }
        assert(exponent_end(t, m) == exponent_end(s, m));
    }
    assert(decimal_end(t, i) == decimal_end(s, i));
    lemma_word_before_blanks(s, b, i, nan_word());
    lemma_word_before_blanks(s, b, i, infinity_word());
    if i < s.len() {
        lemma_word_before_blanks(s, b, i + 1, infinity_word());
    }
}

/// Blanks behind a file do not move the end of a run of blanks that ends
/// within the file; the others end in the blanks or behind them.
proof fn lemma_runs_before_blanks(s: Seq<u8>, b: Seq<u8>, i: int)
    requires
        all_blank(b),
        0 <= i <= s.len(),
    ensures
        blanks_end(s, i) < s.len() ==> blanks_end(s + b, i) == blanks_end(s, i),
        blanks_end(s, i) == s.len() ==> blank_from(s + b, i),
        separator_end(s, i) < s.len() ==> separator_end(s + b, i) == separator_end(s, i),
        s.len() <= separator_end(s, i) ==> s.len() <= separator_end(s + b, i) <= (s + b).len(),
    decreases s.len() - i,
{
    let t = s + b;
    assert(forall|j: int| s.len() <= j < t.len() ==> t[j] == b[j - s.len()] && is_blank(t[j]));
    if i < s.len() {
        assert(t[i] == s[i]);
        lemma_runs_before_blanks(s, b, i + 1);
        lemma_runs(s, i + 1);
        if blanks_end(s, i) == s.len() {
            assert(is_blank(s[i]));
            assert forall|j: int| i <= j < t.len() implies is_blank(#[trigger] t[j]) by {
                if j > i {
                    assert(blank_from(t, i + 1));
                }
            }
        }
    } else {
        lemma_runs(t, i);
    }
}

/// Blanks behind a file do not change a record that is found in it; at
/// most, the record ends later, in the blanks or behind them, where it
/// ended at the end of the file.
proof fn lemma_record_before_blanks(s: Seq<u8>, b: Seq<u8>, i: int)
    requires
        all_blank(b),
        0 <= i <= s.len(),
        (s + b).len() <= usize::MAX,
        record_at(s, i) is Ok,
    ensures
        record_at(s + b, i) is Ok,
        record_at(s + b, i)->Ok_0.0 == record_at(s, i)->Ok_0.0,
        record_at(s + b, i)->Ok_0.1 == record_at(s, i)->Ok_0.1 || (record_at(s, i)->Ok_0.1
            == s.len() && s.len() <= record_at(s + b, i)->Ok_0.1 <= (s + b).len()),
{
    let t = s + b;
    lemma_record_at(s, i);
    let line = record_at(s, i)->Ok_0.0;
    lemma_token_before_blanks(s, b, i);
    lemma_runs_before_blanks(s, b, line.time.end as int);
    lemma_token_before_blanks(s, b, line.area.start as int);
    lemma_runs_before_blanks(s, b, line.area.end as int);
    lemma_token_before_blanks(s, b, line.speed.start as int);
    lemma_runs_before_blanks(s, b, line.speed.end as int);
    lemma_token_before_blanks(s, b, line.midline.start as int);
    lemma_runs_before_blanks(s, b, line.midline.end as int);
    lemma_token_before_blanks(s, b, line.x.start as int);
    lemma_runs_before_blanks(s, b, line.x.end as int);
    lemma_token_before_blanks(s, b, line.y.start as int);
    lemma_runs_before_blanks(s, b, line.y.end as int);
    let e = line.y.end as int;
    lemma_runs(s, e);
    if e < s.len() {
        assert(t[e] == s[e]);
    } else if b.len() > 0 {
        assert(t[e] == b[0]);
        lemma_runs(t, e);
    }
    let (time, i1) = field_at(s, i)->Ok_0;
    assert(field_at(t, i) == field_at(s, i));
    let (area, i2) = field_at(s, i1)->Ok_0;
    assert(field_at(t, i1) == field_at(s, i1));
    let (speed, i3) = field_at(s, i2)->Ok_0;
    assert(field_at(t, i2) == field_at(s, i2));
    let (midline, i4) = field_at(s, i3)->Ok_0;
    assert(field_at(t, i3) == field_at(s, i3));
    let (x, i5) = field_at(s, i4)->Ok_0;
    assert(field_at(t, i4) == field_at(s, i4));
    assert(last_field_at(t, i5) is Ok);
}

/// Blanks behind a file that is accepted from `i` on change nothing of
/// what is found in it.
proof fn lemma_records_before_blanks(s: Seq<u8>, b: Seq<u8>, i: int, first: bool)
    requires
        all_blank(b),
        0 <= i <= s.len(),
        (s + b).len() <= usize::MAX,
        records_from(s, i, first) is Ok,
    ensures
        records_from(s + b, i, first) == records_from(s, i, first),
    decreases s.len() - i,
{
    let t = s + b;
    let start = record_start(s, i, first);
    lemma_runs(s, i);
    lemma_runs_before_blanks(s, b, i);
    if !first && start == s.len() {
        lemma_no_token_at_blank(s, s.len() as int);
        lemma_only_blanks(t, i);
    } else {
        assert(record_start(t, i, first) == start);
        lemma_token_before_blanks(s, b, start);
        if token_at(s, start) is Some {
            lemma_record_at(s, start);
            lemma_record_before_blanks(s, b, start);
            let next = record_at(s, start)->Ok_0.1;
            let later = record_at(t, start)->Ok_0.1;
            if later == next {
                lemma_records_before_blanks(s, b, next, false);
            } else {
                assert(blank_from(s, next));
                lemma_only_blanks(s, next);
                assert(blank_from(t, later)) by {
                    assert(forall|j: int|
                        s.len() <= j < t.len() ==> t[j] == b[j - s.len()] && is_blank(t[j]));
                }
                lemma_only_blanks(t, later);
            }
        }
    }
}

/// Blanks behind a file that is accepted, such as empty lines, change
/// nothing: the same records are found.
pub proof fn lemma_trailing_blanks(s: Seq<u8>, b: Seq<u8>)
    requires
        all_blank(b),
        (s + b).len() <= usize::MAX,
        parse(s) is Ok,
    ensures
        parse(s + b) == parse(s),
{
    lemma_records_before_blanks(s, b, 0, true);
}

/// A run of digits in a part of a file ends where it ends in the file, or
/// with the part.
proof fn lemma_digits_in_part(s: Seq<u8>, i: int, e: int, k: int)
    requires
        0 <= i <= k <= e <= s.len(),
    ensures
        digits_end(s.subrange(i, e), k - i) == (if digits_end(s, k) < e {
            digits_end(s, k)
        } else {
            e
        }) - i,
    decreases e - k,
{
    let t = s.subrange(i, e);
    if k < e {
        assert(t[k - i] == s[k]);
        if is_digit(s[k]) {
            lemma_digits_in_part(s, i, e, k + 1);
        }
    } else {
        lemma_runs(s, k);
    }
}

/// The bytes of a decimal literal in a file are, taken by themselves, a
/// decimal literal from the first to the last.
pub proof fn lemma_decimal_part(s: Seq<u8>, i: int)
    requires
        0 <= i <= s.len(),
        decimal_end(s, i) is Some,
    ensures
        i < decimal_end(s, i)->Some_0 <= s.len(),
        is_decimal(s.subrange(i, decimal_end(s, i)->Some_0)),
{
    let e = decimal_end(s, i)->Some_0;
    let m = mantissa_end(s, i)->Some_0;
    let a = sign_end(s, i);
    lemma_runs(s, a);
    let b = digits_end(s, a);
    if b < s.len() {
        lemma_runs(s, b + 1);
    }
    if a < s.len() {
        lemma_runs(s, a + 1);
    }
    if m < s.len() {
        lemma_runs(s, sign_end(s, m + 1));
    }
    let t = s.subrange(i, e);
    assert(forall|j: int| 0 <= j < t.len() ==> t[j] == s[i + j]);
    assert(sign_end(t, 0) == a - i);
    lemma_digits_in_part(s, i, e, a);
    if b + 1 <= e {
        lemma_digits_in_part(s, i, e, b + 1);
    }
    if a + 1 <= e {
        lemma_digits_in_part(s, i, e, a + 1);
    }
    assert(mantissa_end(t, 0) == Some(m - i));
    if e > m {
        let c = sign_end(s, m + 1);
        assert(sign_end(t, m + 1 - i) == c - i);
        lemma_digits_in_part(s, i, e, c);
    }
    assert(exponent_end(t, m - i) == e - i);
}

/// Where the run of digits that starts at `from` ends.
fn skip_digits(input: &[u8], from: usize) -> (r: usize)
    requires
        from <= input@.len(),
    ensures
        r == digits_end(input@, from as int),
        from <= r <= input@.len(),
{
    let mut i: usize = from;
    while i < input.len() && input[i] >= 48 && input[i] <= 57
        invariant
            from <= i <= input@.len(),
            digits_end(input@, from as int) == digits_end(input@, i as int),
        decreases input@.len() - i,
    {
        i += 1;
    }
    i
}

/// Where the run of blanks that starts at `from` ends.
fn skip_blanks(input: &[u8], from: usize) -> (r: usize)
    requires
        from <= input@.len(),
    ensures
        r == blanks_end(input@, from as int),
        from <= r <= input@.len(),
{
    let mut i: usize = from;
    while i < input.len() && (input[i] == SPACE || input[i] == TAB || input[i] == CARRIAGE_RETURN
        || input[i] == LINE_FEED)
        invariant
            from <= i <= input@.len(),
            blanks_end(input@, from as int) == blanks_end(input@, i as int),
        decreases input@.len() - i,
    {
        i += 1;
    }
    i
}

/// Where the blanks that end a record end: behind the run of blanks from
/// `from` on, and no further than behind the first line feed in it.
fn skip_separator(input: &[u8], from: usize) -> (r: usize)
    requires
        from <= input@.len(),
    ensures
        r == separator_end(input@, from as int),
        from <= r <= input@.len(),
{
    let mut i: usize = from;
    while i < input.len() && (input[i] == SPACE || input[i] == TAB || input[i] == CARRIAGE_RETURN
        || input[i] == LINE_FEED)
        invariant
            from <= i <= input@.len(),
            separator_end(input@, from as int) == separator_end(input@, i as int),
        decreases input@.len() - i,
    {
        if input[i] == LINE_FEED {
            return i + 1;
        }
        i += 1;
    }
    i
}

/// The place after a sign at `from`, or `from`.
fn skip_sign(input: &[u8], from: usize) -> (r: usize)
    requires
        from <= input@.len(),
    ensures
        r == sign_end(input@, from as int),
        from <= r <= input@.len(),
{
    if from < input.len() && (input[from] == PLUS || input[from] == MINUS) {
        from + 1
    } else {
        from
    }
}

/// Where the decimal literal at `from` ends, if one stands there.
fn decimal(input: &[u8], from: usize) -> (r: Option<usize>)
    requires
        from <= input@.len(),
    ensures
        match r {
            Some(e) => decimal_end(input@, from as int) == Some(e as int) && from < e
                <= input@.len(),
            None => decimal_end(input@, from as int) is None,
        },
{
    let a: usize = skip_sign(input, from);
    let b: usize = skip_digits(input, a);
    let m: usize;
    if b > a {
        if b < input.len() && input[b] == POINT {
            m = skip_digits(input, b + 1);
        } else {
            m = b;
        }
    } else if a < input.len() && input[a] == POINT {
        let d: usize = skip_digits(input, a + 1);
        if d > a + 1 {
            m = d;
        } else {
            return None;
        }
    } else {
        return None;
    }
    if m < input.len() && (input[m] == LOWER_E || input[m] == UPPER_E) {
        let c: usize = skip_sign(input, m + 1);
        let d: usize = skip_digits(input, c);
        if d > c {
            return Some(d);
        }
    }
    Some(m)
}

/// Whether the word `NaN` stands at `from`.
fn nan_at(input: &[u8], from: usize) -> (r: bool)
    requires
        from <= input@.len(),
    ensures
        r == has_word(input@, from as int, nan_word()),
        r ==> from + 3 <= input@.len(),
{
    if input.len() - from >= 3 {
        let r = input[from] == 78 && input[from + 1] == 97 && input[from + 2] == 78;
        proof {
            let part = input@.subrange(from as int, from + 3);
            if r {
                assert(part =~= nan_word());
            } else {
                assert(part[0] == input@[from as int] && part[1] == input@[from + 1] && part[2]
                    == input@[from + 2]);
            }
        }
        r
    } else {
        false
    }
}

/// Whether the word `Infinity` stands at `from`.
fn infinity_at(input: &[u8], from: usize) -> (r: bool)
    requires
        from <= input@.len(),
    ensures
        r == has_word(input@, from as int, infinity_word()),
        r ==> from + 8 <= input@.len(),
{
    if input.len() - from >= 8 {
        let r = input[from] == 73 && input[from + 1] == 110 && input[from + 2] == 102 && input[from
            + 3] == 105 && input[from + 4] == 110 && input[from + 5] == 105 && input[from + 6]
            == 116 && input[from + 7] == 121;
        proof {
            let part = input@.subrange(from as int, from + 8);
            if r {
                assert(part =~= infinity_word());
            } else {
                assert(part[0] == input@[from as int] && part[1] == input@[from + 1] && part[2]
                    == input@[from + 2] && part[3] == input@[from + 3] && part[4] == input@[from
                    + 4] && part[5] == input@[from + 5] && part[6] == input@[from + 6] && part[7]
                    == input@[from + 7]);
            }
        }
        r
    } else {
        false
    }
}

/// The numeral that stands at `from`, if any.
pub fn numeral(input: &[u8], from: usize) -> (r: Option<Token>)
    ensures
        r == token_at(input@, from as int),
        r matches Some(t) ==> t.start == from && from < t.end <= input@.len(),
{
    let len: usize = input.len();
    if from > len {
        return None;
    }
    if let Some(e) = decimal(input, from) {
        Some(Token { kind: Literal::Decimal, start: from, end: e })
    } else if nan_at(input, from) {
        Some(Token { kind: Literal::NotANumber, start: from, end: from + 3 })
    } else if from < len && input[from] == MINUS && infinity_at(input, from + 1) {
        Some(Token { kind: Literal::NegInfinite, start: from, end: from + 9 })
    } else if infinity_at(input, from) {
        Some(Token { kind: Literal::Infinite, start: from, end: from + 8 })
    } else {
        None
    }
}

/// What ends a record whose sixth numeral ends at `from`: the end of the
/// input, or the blanks from `from` on, up to their first line feed.
/// Nothing where anything but a blank follows the numeral.
pub fn token_end(input: &[u8], from: usize) -> (r: Option<usize>)
    ensures
        match r {
            Some(next) => token_end_at(input@, from as int) == Some(next as int) && from <= next
                && (from <= input@.len() ==> next <= input@.len()) && (from < input@.len()
                ==> from < next),
            None => token_end_at(input@, from as int) is None,
        },
{
    if from >= input.len() {
        Some(from)
    } else if input[from] == SPACE || input[from] == TAB || input[from] == CARRIAGE_RETURN
        || input[from] == LINE_FEED {
        proof {
            lemma_runs(input@, from as int);
        }
        Some(skip_separator(input, from))
    } else {
        None
    }
}

/// A numeral at `from` and the run of blanks behind it.
fn field(input: &[u8], from: usize) -> (r: Result<(Token, usize), ParseError>)
    requires
        from <= input@.len(),
    ensures
        match r {
            Ok((t, next)) => field_at(input@, from as int) == Ok::<(Token, int), int>(
                (t, next as int),
            ) && from < next <= input@.len(),
            Err(e) => field_at(input@, from as int) == Err::<(Token, int), int>(e.offset as int)
                && from <= e.offset <= input@.len(),
        },
{
    match numeral(input, from) {
        Some(t) => {
            let next: usize = skip_blanks(input, t.end);
            if next > t.end {
                Ok((t, next))
            } else {
                Err(ParseError { offset: t.end })
            }
        },
        None => Err(ParseError { offset: from }),
    }
}

/// The sixth numeral at `from` and what ends the record.
fn last_field(input: &[u8], from: usize) -> (r: Result<(Token, usize), ParseError>)
    requires
        from <= input@.len(),
    ensures
        match r {
            Ok((t, next)) => last_field_at(input@, from as int) == Ok::<(Token, int), int>(
                (t, next as int),
            ) && from < next <= input@.len(),
            Err(e) => last_field_at(input@, from as int) == Err::<(Token, int), int>(
                e.offset as int,
            ) && from <= e.offset <= input@.len(),
        },
{
    match numeral(input, from) {
        Some(t) => match token_end(input, t.end) {
            Some(next) => Ok((t, next)),
            None => Err(ParseError { offset: t.end }),
        },
        None => Err(ParseError { offset: from }),
    }
}

/// The record at `from` and the place where the next record may start.
pub fn record(input: &[u8], from: usize) -> (r: Result<(RawLine, usize), ParseError>)
    ensures
        match r {
            Ok((line, next)) => record_at(input@, from as int) == Ok::<(RawLine, int), int>(
                (line, next as int),
            ) && from < next <= input@.len(),
            Err(e) => record_at(input@, from as int) == Err::<(RawLine, int), int>(
                e.offset as int,
            ) && from <= e.offset && (from <= input@.len() ==> e.offset <= input@.len()),
        },
{
    if from > input.len() {
        return Err(ParseError { offset: from });
    }
    let (time, i1) = match field(input, from) {
        Ok(found) => found,
        Err(e) => { return Err(e); },
    };
    let (area, i2) = match field(input, i1) {
        Ok(found) => found,
        Err(e) => { return Err(e); },
    };
    let (speed, i3) = match field(input, i2) {
        Ok(found) => found,
        Err(e) => { return Err(e); },
    };
    let (midline, i4) = match field(input, i3) {
        Ok(found) => found,
        Err(e) => { return Err(e); },
    };
    let (x, i5) = match field(input, i4) {
        Ok(found) => found,
        Err(e) => { return Err(e); },
    };
    let (y, next) = match last_field(input, i5) {
        Ok(found) => found,
        Err(e) => { return Err(e); },
    };
    Ok((RawLine { time, area, speed, midline, x, y }, next))
}

/// The numerals of the records of a file, in file order, or the offset
/// of the byte at which the file stopped being a recording. A file is
/// taken as a whole: it starts with a record, a record that a numeral
/// opens is complete, and what follows the last record begins with no
/// numeral.
pub fn get_raw_lines(input: &[u8]) -> (r: Result<Vec<RawLine>, ParseError>)
    ensures
        match r {
            Ok(lines) => parse(input@) == Ok::<Seq<RawLine>, int>(lines@) && lines@.len() >= 1,
            Err(e) => parse(input@) == Err::<Seq<RawLine>, int>(e.offset as int) && e.offset
                <= input@.len(),
        },
{
    let mut out: Vec<RawLine> = Vec::new();
    let mut i: usize = 0;
    proof {
        if let Ok(all) = records_from(input@, 0, true) {
            assert(Seq::<RawLine>::empty() + all =~= all);
        }
    }
    loop
        invariant
            i <= input@.len(),
            parse(input@) == after(out@, records_from(input@, i as int, out@.len() == 0)),
        decreases input@.len() - i,
    {
        let start: usize = if out.len() == 0 {
            i
        } else {
            skip_blanks(input, i)
        };
        if numeral(input, start).is_none() {
            if out.len() == 0 {
                return Err(ParseError { offset: start });
            } else {
                proof {
                    assert(out@ + Seq::<RawLine>::empty() =~= out@);
                }
                return Ok(out);
            }
        }
        match record(input, start) {
            Ok((line, next)) => {
                let ghost earlier = out@;
                out.push(line);
                proof {
                    let rest = records_from(input@, next as int, false);
                    if let Ok(more) = rest {
                        assert(earlier + (seq![line] + more) =~= out@ + more);
                    }
                }
                i = next;
            },
            Err(e) => {
                return Err(e);
            },
        }
    }
}

impl Token {
    /// The value of a numeral that is one of the three words; nothing for
    /// a decimal literal.
    pub fn word_value(&self) -> (r: Option<u64>)
        ensures
            r == match self.kind {
                Literal::Decimal => None,
                Literal::NotANumber => Some(NAN),
                Literal::Infinite => Some(INFINITY),
                Literal::NegInfinite => Some(NEG_INFINITY),
            },
    {
        match self.kind {
            Literal::Decimal => None,
            Literal::NotANumber => Some(NAN),
            Literal::Infinite => Some(INFINITY),
            Literal::NegInfinite => Some(NEG_INFINITY),
        }
    }
}

/// The text is a decimal literal, from its first byte to its last.
pub open spec fn is_decimal(text: Seq<u8>) -> bool {
    decimal_end(text, 0) == Some(text.len() as int)
}

/// `value` is the value of the numeral `t` of the file `s`: that of its
/// word, or what `decimal` made of the bytes of its decimal literal.
pub open spec fn valued<F: Fn(&[u8]) -> u64>(decimal: F, s: Seq<u8>, t: Token, value: u64)
    -> bool {
    match t.kind {
        Literal::Decimal => exists|text: &[u8]|
            text@ == s.subrange(t.start as int, t.end as int) && is_decimal(text@)
                && decimal.ensures((text,), value),
        Literal::NotANumber => value == NAN,
        Literal::Infinite => value == INFINITY,
        Literal::NegInfinite => value == NEG_INFINITY,
    }
}

/// `line` holds the values of the numerals of `raw`, field by field.
pub open spec fn read_as<F: Fn(&[u8]) -> u64>(decimal: F, s: Seq<u8>, raw: RawLine, line: DataLine)
    -> bool {
    &&& valued(decimal, s, raw.time, line.time)
    &&& valued(decimal, s, raw.area, line.area)
    &&& valued(decimal, s, raw.speed, line.speed)
    &&& valued(decimal, s, raw.midline, line.midline)
    &&& valued(decimal, s, raw.x, line.x)
    &&& valued(decimal, s, raw.y, line.y)
}

/// The value of one numeral of a file.
fn value<F: Fn(&[u8]) -> u64>(input: &[u8], t: &Token, decimal: &F) -> (v: u64)
    requires
        t.start <= t.end <= input@.len(),
        token_at(input@, t.start as int) == Some(*t),
        forall|text: &[u8]| is_decimal(text@) ==> decimal.requires((text,)),
    ensures
        valued(*decimal, input@, *t, v),
{
    let len: usize = input.len();
    match t.word_value() {
        Some(v) => v,
        None => {
            let text = slice_subrange(input, t.start, t.end);
            proof {
                lemma_decimal_part(input@, t.start as int);
            }
            decimal(text)
        },
    }
}

/// The records of a file, in file order, or the offset of the byte at
/// which the file stopped being a recording. `decimal` is asked for the
/// value of each decimal literal, is handed nothing but decimal literals,
/// and is asked only once the file is accepted.
pub fn get_data_lines<F: Fn(&[u8]) -> u64>(input: &[u8], decimal: F) -> (r: Result<
    Vec<DataLine>,
    ParseError,
>)
    requires
        forall|text: &[u8]| is_decimal(text@) ==> decimal.requires((text,)),
    ensures
        match r {
            Ok(lines) => parse(input@) is Ok && lines@.len() == parse(input@)->Ok_0.len()
                && lines@.len() >= 1 && forall|k: int|
                0 <= k < lines@.len() ==> read_as(
                    decimal,
                    input@,
                    parse(input@)->Ok_0[k],
                    #[trigger] lines@[k],
                ),
            Err(e) => parse(input@) == Err::<Seq<RawLine>, int>(e.offset as int) && e.offset
                <= input@.len(),
        },
{
    let raw = match get_raw_lines(input) {
        Ok(raw) => raw,
        Err(e) => { return Err(e); },
    };
    let len: usize = input.len();
    let mut out: Vec<DataLine> = Vec::new();
    let mut k: usize = 0;
    while k < raw.len()
        invariant
            input@.len() == len,
            k <= raw@.len(),
            out@.len() == k,
            parse(input@) == Ok::<Seq<RawLine>, int>(raw@),
            forall|text: &[u8]| is_decimal(text@) ==> decimal.requires((text,)),
            forall|j: int| 0 <= j < k ==> read_as(decimal, input@, raw@[j], #[trigger] out@[j]),
        decreases raw@.len() - k,
    {
        let line: RawLine = raw[k];
        proof {
            lemma_parse_tokens(input@, k as int);
        }
        let data = DataLine {
            time: value(input, &line.time, &decimal),
            area: value(input, &line.area, &decimal),
            speed: value(input, &line.speed, &decimal),
            midline: value(input, &line.midline, &decimal),
            x: value(input, &line.x, &decimal),
            y: value(input, &line.y, &decimal),
        };
        out.push(data);
        k += 1;
    }
    Ok(out)
}

} // verus!
