//! The runtime value model and the literal recognizers.
//!
//! A literal recognizer maps source text to an optional runtime value; the
//! interpreter consults them in registration order after word lookup fails,
//! and the first success wins.

use vstd::prelude::*;
use crate::chars::{idec, is_digit, parse_i64_canonical, string_to_chars};
use crate::word_options::WordOptions;

verus! {

/// A calendar date: year, month (1-12) and day (1-31).
#[derive(Debug, Clone, Copy, PartialEq, Eq, Structural)]
pub struct Date {
    pub year: i32,
    pub month: u32,
    pub day: u32,
}

/// A time of day: hour (0-23), minute and second (0-59).
#[derive(Debug, Clone, Copy, PartialEq, Eq, Structural)]
pub struct Time {
    pub hour: u32,
    pub minute: u32,
    pub second: u32,
}

/// A zone-aware datetime: the civil date and time as read in the named
/// time zone, together with that zone's UTC offset at this instant.
#[derive(Debug, PartialEq, Eq)]
pub struct ZonedDateTime {
    pub date: Date,
    pub time: Time,
    /// The zone's UTC offset in seconds at this instant.
    pub offset_seconds: i32,
    /// The IANA name of the time zone.
    pub tz_name: String,
}

impl Clone for ZonedDateTime {
    fn clone(&self) -> (r: Self)
        ensures
            r == *self,
    {
        Self {
            date: self.date,
            time: self.time,
            offset_seconds: self.offset_seconds,
            tz_name: self.tz_name.clone(),
        }
    }
}

/// Whether a year is a leap year in the proleptic Gregorian calendar.
pub open spec fn is_leap_year(y: int) -> bool {
    (y % 4 == 0 && y % 100 != 0) || y % 400 == 0
}

/// The number of days of a month.
pub open spec fn days_in_month(y: int, m: int) -> int {
    if m == 2 {
        if is_leap_year(y) {
            29
        } else {
            28
        }
    } else if m == 4 || m == 6 || m == 9 || m == 11 {
        30
    } else {
        31
    }
}

/// Whether year, month and day name a real calendar date.
pub open spec fn valid_date(y: int, m: int, d: int) -> bool {
    1 <= m <= 12 && 1 <= d <= days_in_month(y, m)
}

/// Whether hour, minute and second name a real time of day.
pub open spec fn valid_time(h: int, mi: int, s: int) -> bool {
    0 <= h <= 23 && 0 <= mi <= 59 && 0 <= s <= 59
}

/// The runtime value model. Composite values are immutable once built;
/// mutation is copy-on-write.
///
/// A float is carried as the bit pattern of an IEEE 754 double: the core
/// never computes with it, it only moves it through the stack.
///
/// `StartArrayMarker` is the marker that a start-of-array token pushes; the
/// end-of-array word collects everything above it.
#[derive(Debug, PartialEq)]
#[verifier::ext_equal]
pub enum ForthicValue {
    Null,
    Bool(bool),
    Int(i64),
    Float(u64),
    Str(String),
    Array(Vec<ForthicValue>),
    Record(Vec<(String, ForthicValue)>),
    Date(Date),
    Time(Time),
    DateTime(ZonedDateTime),
    WordOptions(WordOptions),
    StartArrayMarker,
}

/// The mathematical model of a runtime value: the same shape as
/// `ForthicValue`, with sequences for arrays, records, options and
/// strings. Contracts speak of values through this model.
#[verifier::ext_equal]
pub enum ValueSpec {
    Null,
    Bool(bool),
    Int(int),
    Float(u64),
    Str(Seq<char>),
    Array(Seq<ValueSpec>),
    Record(Seq<(Seq<char>, ValueSpec)>),
    Date(Date),
    Time(Time),
    DateTime { date: Date, time: Time, offset_seconds: int, tz_name: Seq<char> },
    WordOptions(Seq<(Seq<char>, ValueSpec)>),
    StartArrayMarker,
}

/// The model of a value.
pub open spec fn value_view(v: ForthicValue) -> ValueSpec
    decreases v,
{
    match v {
        ForthicValue::Null => ValueSpec::Null,
        ForthicValue::Bool(b) => ValueSpec::Bool(b),
        ForthicValue::Int(i) => ValueSpec::Int(i as int),
        ForthicValue::Float(f) => ValueSpec::Float(f),
        ForthicValue::Str(s) => ValueSpec::Str(s@),
        ForthicValue::Array(items) => ValueSpec::Array(values_view(items@)),
        ForthicValue::Record(fields) => ValueSpec::Record(pairs_view(fields@)),
        ForthicValue::Date(d) => ValueSpec::Date(d),
        ForthicValue::Time(t) => ValueSpec::Time(t),
        ForthicValue::DateTime(z) => ValueSpec::DateTime {
            date: z.date,
            time: z.time,
            offset_seconds: z.offset_seconds as int,
            tz_name: z.tz_name@,
        },
        ForthicValue::WordOptions(o) => ValueSpec::WordOptions(pairs_view(o.entries@)),
        ForthicValue::StartArrayMarker => ValueSpec::StartArrayMarker,
    }
}

/// The model of a sequence of values.
pub open spec fn values_view(s: Seq<ForthicValue>) -> Seq<ValueSpec>
    decreases s,
{
    if s.len() == 0 {
        Seq::empty()
    } else {
        values_view(s.drop_last()).push(value_view(s.last()))
    }
}

/// The model of a sequence of key-value pairs.
pub open spec fn pairs_view(s: Seq<(String, ForthicValue)>) -> Seq<(Seq<char>, ValueSpec)>
    decreases s,
{
    if s.len() == 0 {
        Seq::empty()
    } else {
        pairs_view(s.drop_last()).push((s.last().0@, value_view(s.last().1)))
    }
}

impl View for ForthicValue {
    type V = ValueSpec;

    open spec fn view(&self) -> ValueSpec {
        value_view(*self)
    }
}

/// The model of a value sequence has the same length, element by element.
pub proof fn lemma_values_view(s: Seq<ForthicValue>)
    ensures
        values_view(s).len() == s.len(),
        forall|i: int| 0 <= i < s.len() ==> #[trigger] values_view(s)[i] == value_view(s[i]),
    decreases s,
{
    if s.len() > 0 {
        lemma_values_view(s.drop_last());
        assert(forall|i: int| 0 <= i < s.len() - 1 ==> s.drop_last()[i] == #[trigger] s[i]);
    }
}

/// The model of a pair sequence has the same length, pair by pair.
pub proof fn lemma_pairs_view(s: Seq<(String, ForthicValue)>)
    ensures
        pairs_view(s).len() == s.len(),
        forall|i: int|
            0 <= i < s.len() ==> #[trigger] pairs_view(s)[i] == (s[i].0@, value_view(s[i].1)),
    decreases s,
{
    if s.len() > 0 {
        lemma_pairs_view(s.drop_last());
        assert(forall|i: int| 0 <= i < s.len() - 1 ==> s.drop_last()[i] == #[trigger] s[i]);
    }
}

/// Two value sequences with equal models element by element have equal
/// models.
pub proof fn lemma_values_view_ext(a: Seq<ForthicValue>, b: Seq<ForthicValue>)
    requires
        a.len() == b.len(),
        forall|i: int| 0 <= i < a.len() ==> value_view(#[trigger] a[i]) == value_view(b[i]),
    ensures
        values_view(a) == values_view(b),
{
    lemma_values_view(a);
    lemma_values_view(b);
    assert(values_view(a) =~= values_view(b));
}

/// Two pair sequences with equal keys and equal value models pair by pair
/// have equal models.
pub proof fn lemma_pairs_view_ext(a: Seq<(String, ForthicValue)>, b: Seq<(String, ForthicValue)>)
    requires
        a.len() == b.len(),
        forall|i: int|
            0 <= i < a.len() ==> (#[trigger] a[i]).0@ == b[i].0@ && value_view(a[i].1)
                == value_view(b[i].1),
    ensures
        pairs_view(a) == pairs_view(b),
{
    lemma_pairs_view(a);
    lemma_pairs_view(b);
    assert(pairs_view(a) =~= pairs_view(b));
}

impl ForthicValue {
    /// Whether this value is `Null`.
    pub fn is_null(&self) -> (r: bool)
        ensures
            r == (self@ is Null),
    {
        matches!(self, ForthicValue::Null)
    }

    /// The string inside, if this is a string.
    pub fn as_string(&self) -> (r: Option<&str>)
        ensures
            match r {
                Some(s) => self@ == ValueSpec::Str(s@),
                None => !(self@ is Str),
            },
    {
        match self {
            ForthicValue::Str(s) => Some(s.as_str()),
            _ => None,
        }
    }

    /// The integer inside, if this is an integer.
    pub fn as_int(&self) -> (r: Option<i64>)
        ensures
            match r {
                Some(i) => self@ == ValueSpec::Int(i as int),
                None => !(self@ is Int),
            },
    {
        match self {
            ForthicValue::Int(i) => Some(*i),
            _ => None,
        }
    }

    /// The float bits inside, if this is a float.
    pub fn as_float(&self) -> (r: Option<u64>)
        ensures
            match r {
                Some(f) => self@ == ValueSpec::Float(f),
                None => !(self@ is Float),
            },
    {
        match self {
            ForthicValue::Float(f) => Some(*f),
            _ => None,
        }
    }

    /// The boolean inside, if this is a boolean.
    pub fn as_bool(&self) -> (r: Option<bool>)
        ensures
            match r {
                Some(b) => self@ == ValueSpec::Bool(b),
                None => !(self@ is Bool),
            },
    {
        match self {
            ForthicValue::Bool(b) => Some(*b),
            _ => None,
        }
    }
}

impl Clone for ForthicValue {
    /// A deep copy with the same model.
    #[verifier::loop_isolation(false)]
    fn clone(&self) -> (r: Self)
        ensures
            r@ == self@,
        decreases *self,
    {
        match self {
            ForthicValue::Null => ForthicValue::Null,
            ForthicValue::Bool(b) => ForthicValue::Bool(*b),
            ForthicValue::Int(i) => ForthicValue::Int(*i),
            ForthicValue::Float(f) => ForthicValue::Float(*f),
            ForthicValue::Str(s) => ForthicValue::Str(s.clone()),
            ForthicValue::Array(items) => {
                let mut out: Vec<ForthicValue> = Vec::new();
                let mut i: usize = 0;
                while i < items.len()
                    invariant
                        i <= items@.len(),
                        out@.len() == i,
                        forall|j: int|
                            0 <= j < i ==> value_view(#[trigger] out@[j]) == value_view(
                                items@[j],
                            ),
                    decreases items@.len() - i,
                {
                    proof {
                        assert(decreases_to!(*self => *items));
                        assert(decreases_to!(*items => items@[i as int]));
                    }
                    let item = items[i].clone();
                    out.push(item);
                    i = i + 1;
                }
                proof {
                    lemma_values_view_ext(out@, items@);
                }
                ForthicValue::Array(out)
            },
            ForthicValue::Record(fields) => {
                let mut out: Vec<(String, ForthicValue)> = Vec::new();
                let mut i: usize = 0;
                while i < fields.len()
                    invariant
                        i <= fields@.len(),
                        out@.len() == i,
                        forall|j: int|
                            0 <= j < i ==> (#[trigger] out@[j]).0@ == fields@[j].0@ && value_view(
                                out@[j].1,
                            ) == value_view(fields@[j].1),
                    decreases fields@.len() - i,
                {
                    proof {
                        assert(decreases_to!(*self => *fields));
                        assert(decreases_to!(*fields => fields@[i as int]));
                        assert(decreases_to!(fields@[i as int] => fields@[i as int].1));
                    }
                    let key = fields[i].0.clone();
                    let val = fields[i].1.clone();
                    out.push((key, val));
                    i = i + 1;
                }
                proof {
                    lemma_pairs_view_ext(out@, fields@);
                }
                ForthicValue::Record(out)
            },
            ForthicValue::Date(d) => ForthicValue::Date(*d),
            ForthicValue::Time(t) => ForthicValue::Time(*t),
            ForthicValue::DateTime(z) => ForthicValue::DateTime(z.clone()),
            ForthicValue::WordOptions(o) => ForthicValue::WordOptions(o.clone()),
            ForthicValue::StartArrayMarker => ForthicValue::StartArrayMarker,
        }
    }
}

/// What the boolean recognizer accepts: exactly `TRUE` and `FALSE`.
pub open spec fn spec_to_bool(s: Seq<char>) -> Option<ValueSpec> {
    if s == "TRUE"@ {
        Some(ValueSpec::Bool(true))
    } else if s == "FALSE"@ {
        Some(ValueSpec::Bool(false))
    } else {
        None
    }
}

/// Recognize the boolean literals `TRUE` and `FALSE`.
pub fn to_bool(s: &str) -> (r: Option<ForthicValue>)
    ensures
        match r {
            Some(v) => spec_to_bool(s@) == Some(value_view(v)),
            None => spec_to_bool(s@) is None,
        },
{
    if streq(s, "TRUE") {
        Some(ForthicValue::Bool(true))
    } else if streq(s, "FALSE") {
        Some(ForthicValue::Bool(false))
    } else {
        None
    }
}

/// Whether some character of `s` is a decimal point.
pub open spec fn contains_dot(s: Seq<char>) -> bool {
    exists|i: int| 0 <= i < s.len() && s[i] == '.'
}

/// What the integer recognizer accepts: the canonical decimal
/// representation of an `i64`, and nothing else.
pub open spec fn spec_to_int(s: Seq<char>) -> Option<ValueSpec> {
    if exists|n: i64| s == idec(n as int) {
        Some(ValueSpec::Int((choose|n: i64| s == idec(n as int)) as int))
    } else {
        None
    }
}

/// Recognize integer literals: the canonical decimal representation of an
/// `i64`, such as `42`, `-10` or `0`. Anything else, including text with a
/// decimal point or leading zeros, is declined.
pub fn to_int(s: &str) -> (r: Option<ForthicValue>)
    ensures
        match r {
            Some(v) => spec_to_int(s@) == Some(value_view(v)),
            None => spec_to_int(s@) is None,
        },
{
    let chars = string_to_chars(s);
    match parse_i64_canonical(&chars) {
        Some(n) => {
            proof {
                let m = choose|m: i64| s@ == idec(m as int);
                crate::chars::lemma_idec_injective(n, m);
            }
            Some(ForthicValue::Int(n))
        },
        None => None,
    }
}

/// The hook through which the host supplies float literal parsing.
///
/// The core never computes with floats, so a parsed float enters it only
/// as the bit pattern of an IEEE 754 double. An embedding that wants float
/// literals implements this trait with its own parse and hands it to the
/// interpreter; the core calls it only for text containing a decimal
/// point, and wraps whatever bits come back in a `Float` value. The core's
/// own `NoFloatLiterals` recognizes nothing.
pub trait FloatParser {
    /// Parse a float literal into the bits of an IEEE 754 double.
    fn parse_bits(&self, s: &str) -> Option<u64>;
}

/// The default float hook: recognizes no float literals.
#[derive(Debug, Clone, Copy, PartialEq, Eq)]
pub struct NoFloatLiterals;

impl FloatParser for NoFloatLiterals {
    fn parse_bits(&self, _s: &str) -> Option<u64> {
        None
    }
}

/// Whether some character of `s` is a decimal point: only such text is
/// ever offered to the float parser.
pub fn has_dot(s: &str) -> (r: bool)
    ensures
        r == contains_dot(s@),
{
    let chars = string_to_chars(s);
    let mut found = false;
    let mut i: usize = 0;
    while i < chars.len()
        invariant
            i <= chars@.len(),
            found == exists|j: int| 0 <= j < i && chars@[j] == '.',
        decreases chars@.len() - i,
    {
        if chars[i] == '.' {
            found = true;
        }
        i = i + 1;
    }
    found
}

/// Compare a string with a literal.
fn streq(a: &str, b: &str) -> (r: bool)
    ensures
        r == (a@ == b@),
{
    let sa = a.to_owned();
    let sb = b.to_owned();
    sa == sb
}

/// Whether a character counts as whitespace between the minutes and the
/// meridiem of a time literal.
pub open spec fn spec_time_ws(c: char) -> bool {
    c == ' ' || c == '\t' || c == '\n' || c == '\r'
}

/// What the time recognizer accepts: one or two hour digits, a colon,
/// exactly two minute digits, and optionally whitespace and `AM` or `PM`.
/// `PM` adds twelve to hours below twelve; `AM` maps hour twelve to zero
/// and folds hours above twelve back down. Hours above 23 or minutes above
/// 59 after adjustment are declined.
pub open spec fn spec_to_time(s: Seq<char>) -> Option<ValueSpec> {
    match spec_time_parts(s) {
        Some((h, mi, meridiem)) => {
            let hours = match meridiem {
                Some(true) => if h < 12 {
                    h + 12
                } else {
                    h
                },
                Some(false) => if h == 12 {
                    0
                } else if h > 12 {
                    h - 12
                } else {
                    h
                },
                None => h,
            };
            if hours > 23 || mi >= 60 {
                None
            } else {
                Some(ValueSpec::Time(Time { hour: hours as u32, minute: mi as u32, second: 0 }))
            }
        },
        None => None,
    }
}

/// The raw parts of a time literal: hours, minutes, and the meridiem
/// (`Some(true)` for `PM`, `Some(false)` for `AM`).
pub open spec fn spec_time_parts(s: Seq<char>) -> Option<(int, int, Option<bool>)> {
    if s.len() >= 4 && is_digit(s[0]) && s[1] == ':' && is_digit(s[2]) && is_digit(s[3]) {
        spec_time_tail(s, crate::chars::digit_val(s[0]) as int, spec_two_digits(s, 2), 4)
    } else if s.len() >= 5 && is_digit(s[0]) && is_digit(s[1]) && s[2] == ':' && is_digit(s[3])
        && is_digit(s[4]) {
        spec_time_tail(
            s,
            crate::chars::digit_val(s[0]) * 10 + crate::chars::digit_val(s[1]) as int,
            spec_two_digits(s, 3),
            5,
        )
    } else {
        None
    }
}

/// The value of the two digits of `s` at `i`.
pub open spec fn spec_two_digits(s: Seq<char>, i: int) -> int {
    crate::chars::digit_val(s[i]) * 10 + crate::chars::digit_val(s[i + 1]) as int
}

/// Parse what follows the minutes of a time literal: nothing, or
/// whitespace and a meridiem.
pub open spec fn spec_time_tail(s: Seq<char>, h: int, mi: int, i: int) -> Option<
    (int, int, Option<bool>),
>
    decreases s.len() - i,
{
    if i >= s.len() {
        Some((h, mi, None))
    } else if spec_time_ws(s[i]) {
        spec_time_tail(s, h, mi, i + 1)
    } else if s.len() == i + 2 && s[i] == 'A' && s[i + 1] == 'M' {
        Some((h, mi, Some(false)))
    } else if s.len() == i + 2 && s[i] == 'P' && s[i + 1] == 'M' {
        Some((h, mi, Some(true)))
    } else {
        None
    }
}

/// Recognize time literals such as `9:00`, `22:15` or `11:30 PM`.
pub fn to_time(s: &str) -> (r: Option<ForthicValue>)
    ensures
        match r {
            Some(v) => spec_to_time(s@) == Some(value_view(v)),
            None => spec_to_time(s@) is None,
        },
{
    let chars = string_to_chars(s);
    let n = chars.len();
    let h: u64;
    let mut i: usize;
    if n >= 4 && char_is_digit(chars[0]) && chars[1] == ':' && char_is_digit(chars[2])
        && char_is_digit(chars[3]) {
        h = crate::chars::char_digit_val(chars[0]);
        i = 2;
    } else if n >= 5 && char_is_digit(chars[0]) && char_is_digit(chars[1]) && chars[2] == ':'
        && char_is_digit(chars[3]) && char_is_digit(chars[4]) {
        h = crate::chars::char_digit_val(chars[0]) * 10 + crate::chars::char_digit_val(chars[1]);
        i = 3;
    } else {
        return None;
    }
    let mi = crate::chars::char_digit_val(chars[i]) * 10 + crate::chars::char_digit_val(
        chars[i + 1],
    );
    i = i + 2;
    let ghost start = i as int;
    let tail_result: Option<Option<bool>>;
    loop
        invariant
            start <= i <= chars@.len(),
            n == chars@.len(),
            spec_time_tail(chars@, h as int, mi as int, start) == spec_time_tail(
                chars@,
                h as int,
                mi as int,
                i as int,
            ),
        ensures
            spec_time_tail(chars@, h as int, mi as int, start) == match tail_result {
                Some(mer) => Some((h as int, mi as int, mer)),
                None => Option::<(int, int, Option<bool>)>::None,
            },
        decreases chars@.len() - i,
    {
        if i >= n {
            tail_result = Some(None);
            break;
        }
        let c = chars[i];
        if c == ' ' || c == '\t' || c == '\n' || c == '\r' {
            i = i + 1;
        } else if n >= 2 && i == n - 2 && c == 'A' && chars[i + 1] == 'M' {
            tail_result = Some(Some(false));
            break;
        } else if n >= 2 && i == n - 2 && c == 'P' && chars[i + 1] == 'M' {
            tail_result = Some(Some(true));
            break;
        } else {
            tail_result = None;
            break;
        }
    }
    let meridiem: Option<bool> = match tail_result {
        Some(mer) => mer,
        None => {
            return None;
        },
    };
    let hours: u64 = match meridiem {
        Some(true) => if h < 12 {
            h + 12
        } else {
            h
        },
        Some(false) => if h == 12 {
            0
        } else if h > 12 {
            h - 12
        } else {
            h
        },
        None => h,
    };
    if hours > 23 || mi >= 60 {
        return None;
    }
    Some(ForthicValue::Time(Time { hour: hours as u32, minute: mi as u32, second: 0 }))
}

/// Whether a character is a decimal digit.
fn char_is_digit(c: char) -> (r: bool)
    ensures
        r == is_digit(c),
{
    crate::chars::char_digit_val(c) < 10
}

/// The default recognizers are mutually exclusive on their shared ground:
/// a canonical integer contains no decimal point, so the float recognizer
/// declines it, and the boolean and integer recognizers never accept the
/// same text.
pub proof fn lemma_recognizer_order_exclusive(s: Seq<char>)
    ensures
        spec_to_int(s) is Some ==> !contains_dot(s),
        spec_to_int(s) is Some ==> spec_to_bool(s) is None,
        spec_to_bool(s) is Some ==> spec_to_int(s) is None,
        spec_to_bool(s) is Some ==> !contains_dot(s),
{
    reveal_strlit("TRUE");
    reveal_strlit("FALSE");
    if spec_to_int(s) is Some {
        let n = choose|n: i64| s == idec(n as int);
        let mag: nat = if n >= 0 {
            n as nat
        } else {
            (-(n as int)) as nat
        };
        crate::chars::lemma_udec_props(mag);
        assert forall|i: int| 0 <= i < s.len() implies s[i] != '.' && s[i] != 'T' && s[i]
            != 'F' by {
            if n >= 0 {
                assert(s =~= crate::chars::udec(mag));
                assert(is_digit(s[i]));
            } else {
                assert(s =~= seq!['-'].add(crate::chars::udec(mag)));
                if i > 0 {
                    assert(s[i] == crate::chars::udec(mag)[i - 1]);
                    assert(is_digit(s[i]));
                }
            }
        }
        assert(!contains_dot(s));
        if s == "TRUE"@ {
            assert(s[0] == 'T');
        }
        if s == "FALSE"@ {
            assert(s[0] == 'F');
        }
    }
    if spec_to_bool(s) is Some {
        assert forall|i: int| 0 <= i < s.len() implies s[i] != '.' by {
            if s == "TRUE"@ {
            } else {
                assert(s == "FALSE"@);
            }
        }
    }
}

/// The year segment of a date literal: four digits, or the `YYYY`
/// wildcard standing for the current year.
pub open spec fn spec_year_part(s: Seq<char>) -> Option<Option<int>> {
    if s[0] == 'Y' && s[1] == 'Y' && s[2] == 'Y' && s[3] == 'Y' {
        Some(None)
    } else if is_digit(s[0]) && is_digit(s[1]) && is_digit(s[2]) && is_digit(s[3]) {
        Some(
            Some(
                crate::chars::digit_val(s[0]) * 1000 + crate::chars::digit_val(s[1]) * 100
                    + crate::chars::digit_val(s[2]) * 10 + crate::chars::digit_val(s[3]) as int,
            ),
        )
    } else {
        None
    }
}

/// A two-digit segment of a date literal at `i`, or its wildcard.
pub open spec fn spec_two_part(s: Seq<char>, i: int, w: char) -> Option<Option<int>> {
    if s[i] == w && s[i + 1] == w {
        Some(None)
    } else if is_digit(s[i]) && is_digit(s[i + 1]) {
        Some(Some(spec_two_digits(s, i)))
    } else {
        None
    }
}

/// What the date recognizer accepts: `YYYY-MM-DD`, where each segment may
/// be its wildcard; a wildcard takes the current value from `today`. The
/// resolved triple must name a real calendar date.
pub open spec fn spec_to_date(s: Seq<char>, today: Date) -> Option<ValueSpec> {
    if s.len() == 10 && s[4] == '-' && s[7] == '-' {
        match (spec_year_part(s), spec_two_part(s, 5, 'M'), spec_two_part(s, 8, 'D')) {
            (Some(y), Some(m), Some(d)) => {
                let yy = match y {
                    Some(v) => v,
                    None => today.year as int,
                };
                let mm = match m {
                    Some(v) => v,
                    None => today.month as int,
                };
                let dd = match d {
                    Some(v) => v,
                    None => today.day as int,
                };
                if valid_date(yy, mm, dd) {
                    Some(
                        ValueSpec::Date(
                            Date { year: yy as i32, month: mm as u32, day: dd as u32 },
                        ),
                    )
                } else {
                    None
                }
            },
            _ => None,
        }
    } else {
        None
    }
}

/// Recognize date literals such as `2023-12-25`, with `YYYY`, `MM` and
/// `DD` wildcards resolved from the given current date.
pub fn to_literal_date_with(s: &str, today: Date) -> (r: Option<ForthicValue>)
    requires
        valid_date(today.year as int, today.month as int, today.day as int),
        1 <= today.year <= 9999,
    ensures
        match r {
            Some(v) => spec_to_date(s@, today) == Some(value_view(v)),
            None => spec_to_date(s@, today) is None,
        },
{
    let chars = string_to_chars(s);
    if chars.len() != 10 || chars[4] != '-' || chars[7] != '-' {
        return None;
    }
    let year: i32;
    if chars[0] == 'Y' && chars[1] == 'Y' && chars[2] == 'Y' && chars[3] == 'Y' {
        year = today.year;
    } else if char_is_digit(chars[0]) && char_is_digit(chars[1]) && char_is_digit(chars[2])
        && char_is_digit(chars[3]) {
        year = (crate::chars::char_digit_val(chars[0]) * 1000 + crate::chars::char_digit_val(
            chars[1],
        ) * 100 + crate::chars::char_digit_val(chars[2]) * 10 + crate::chars::char_digit_val(
            chars[3],
        )) as i32;
    } else {
        return None;
    }
    let month: u32;
    if chars[5] == 'M' && chars[6] == 'M' {
        month = today.month;
    } else if char_is_digit(chars[5]) && char_is_digit(chars[6]) {
        month = (crate::chars::char_digit_val(chars[5]) * 10 + crate::chars::char_digit_val(
            chars[6],
        )) as u32;
    } else {
        return None;
    }
    let day: u32;
    if chars[8] == 'D' && chars[9] == 'D' {
        day = today.day;
    } else if char_is_digit(chars[8]) && char_is_digit(chars[9]) {
        day = (crate::chars::char_digit_val(chars[8]) * 10 + crate::chars::char_digit_val(
            chars[9],
        )) as u32;
    } else {
        return None;
    }
    if !date_is_valid(year, month, day) {
        return None;
    }
    Some(ForthicValue::Date(Date { year, month, day }))
}

/// Whether year, month and day name a real calendar date.
pub fn date_is_valid(year: i32, month: u32, day: u32) -> (r: bool)
    requires
        year >= 0,
    ensures
        r == valid_date(year as int, month as int, day as int),
{
    if month < 1 || month > 12 {
        return false;
    }
    let leap = (year % 4 == 0 && year % 100 != 0) || year % 400 == 0;
    let max_day: u32 = if month == 2 {
        if leap {
            29
        } else {
            28
        }
    } else if month == 4 || month == 6 || month == 9 || month == 11 {
        30
    } else {
        31
    };
    1 <= day && day <= max_day
}

/// The value of four digits of `s` at `i`.
pub open spec fn spec_four_digits(s: Seq<char>, i: int) -> int {
    crate::chars::digit_val(s[i]) * 1000 + crate::chars::digit_val(s[i + 1]) * 100
        + crate::chars::digit_val(s[i + 2]) * 10 + crate::chars::digit_val(s[i + 3]) as int
}

/// Whether the characters of `s` at `i..i+n` are all digits.
pub open spec fn spec_digits_at(s: Seq<char>, i: int, n: int) -> bool {
    forall|j: int| i <= j < i + n ==> is_digit(#[trigger] s[j])
}

/// The civil core of a zoned-datetime literal: `YYYY-MM-DDTHH:MM:SS`,
/// nineteen characters starting at `i`, yielding year, month, day, hour,
/// minute and second.
pub open spec fn spec_civil_parts(s: Seq<char>, i: int) -> Option<(int, int, int, int, int, int)> {
    if spec_digits_at(s, i, 4) && s[i + 4] == '-' && spec_digits_at(s, i + 5, 2) && s[i + 7]
        == '-' && spec_digits_at(s, i + 8, 2) && s[i + 10] == 'T' && spec_digits_at(s, i + 11, 2)
        && s[i + 13] == ':' && spec_digits_at(s, i + 14, 2) && s[i + 16] == ':' && spec_digits_at(
        s,
        i + 17,
        2,
    ) {
        Some(
            (
                spec_four_digits(s, i),
                spec_two_digits(s, i + 5),
                spec_two_digits(s, i + 8),
                spec_two_digits(s, i + 11),
                spec_two_digits(s, i + 14),
                spec_two_digits(s, i + 17),
            ),
        )
    } else {
        None
    }
}

/// A `+HH:MM` or `-HH:MM` offset at `i`, in seconds east of UTC; hours
/// above 23 or minutes above 59 do not parse.
pub open spec fn spec_offset_part(s: Seq<char>, i: int) -> Option<int> {
    if (s[i] == '+' || s[i] == '-') && spec_digits_at(s, i + 1, 2) && s[i + 3] == ':'
        && spec_digits_at(s, i + 4, 2) {
        let hh = spec_two_digits(s, i + 1);
        let mm = spec_two_digits(s, i + 4);
        if hh <= 23 && mm <= 59 {
            if s[i] == '+' {
                Some(hh * 3600 + mm * 60)
            } else {
                Some(-(hh * 3600 + mm * 60))
            }
        } else {
            None
        }
    } else {
        None
    }
}

/// The position of the first `[` of `s`, if any.
pub open spec fn spec_first_bracket(s: Seq<char>, i: int) -> Option<int>
    decreases s.len() - i,
{
    if i < 0 || i >= s.len() {
        None
    } else if s[i] == '[' {
        Some(i)
    } else {
        spec_first_bracket(s, i + 1)
    }
}

/// A zoned datetime assembled from resolved parts, when they name a real
/// date and time.
pub open spec fn spec_zoned_value(
    y: int,
    mo: int,
    d: int,
    h: int,
    mi: int,
    sec: int,
    offset: int,
    zone: Seq<char>,
) -> Option<ValueSpec> {
    if valid_date(y, mo, d) && valid_time(h, mi, sec) && -86400 < offset < 86400 {
        Some(
            ValueSpec::DateTime {
                date: Date { year: y as i32, month: mo as u32, day: d as u32 },
                time: Time { hour: h as u32, minute: mi as u32, second: sec as u32 },
                offset_seconds: offset,
                tz_name: zone,
            },
        )
    } else {
        None
    }
}

/// The body of a zoned-datetime literal, once a bracketed zone has been
/// split off: `YYYY-MM-DDTHH:MM:SS`, optionally followed by `Z` (only
/// without a bracketed zone) or by a `±HH:MM` offset. A bare civil time
/// is read in `zone` with the zone's own offset there; an explicit offset
/// is kept as given, under the bracketed zone's name or, without one,
/// under the offset text itself.
pub open spec fn spec_zoned_body(
    body: Seq<char>,
    zone: Option<Seq<char>>,
    default_tz: Seq<char>,
) -> Option<ValueSpec> {
    if body.len() == 19 {
        match spec_civil_parts(body, 0) {
            Some((y, mo, d, h, mi, sec)) => {
                let zn = match zone {
                    Some(z) => z,
                    None => default_tz,
                };
                if valid_date(y, mo, d) && valid_time(h, mi, sec) && crate::tz::is_known_tz(zn) {
                    match crate::tz::tz_offset_of_local(zn, y, mo, d, h, mi, sec) {
                        Some(o) => spec_zoned_value(y, mo, d, h, mi, sec, o, zn),
                        None => None,
                    }
                } else {
                    None
                }
            },
            None => None,
        }
    } else if body.len() == 20 && body[19] == 'Z' && zone is None {
        match spec_civil_parts(body, 0) {
            Some((y, mo, d, h, mi, sec)) => spec_zoned_value(y, mo, d, h, mi, sec, 0, "UTC"@),
            None => None,
        }
    } else if body.len() == 25 {
        match spec_civil_parts(body, 0) {
            Some((y, mo, d, h, mi, sec)) => match spec_offset_part(body, 19) {
                Some(o) => {
                    let zn = match zone {
                        Some(z) => z,
                        None => body.subrange(19, 25),
                    };
                    spec_zoned_value(y, mo, d, h, mi, sec, o, zn)
                },
                None => None,
            },
            None => None,
        }
    } else {
        None
    }
}

/// What the zoned-datetime recognizer accepts: a civil datetime with an
/// optional `Z` or `±HH:MM` suffix and an optional bracketed IANA zone at
/// the end, as the tokenizer keeps it in one token.
pub open spec fn spec_to_zoned(s: Seq<char>, default_tz: Seq<char>) -> Option<ValueSpec> {
    match spec_first_bracket(s, 0) {
        Some(i) => if s.len() >= 2 && s.last() == ']' && i < s.len() - 1 {
            spec_zoned_body(s.take(i), Some(s.subrange(i + 1, s.len() - 1)), default_tz)
        } else {
            None
        },
        None => spec_zoned_body(s, None, default_tz),
    }
}

/// Recognize zoned-datetime literals: `2025-05-24T10:15:00Z`,
/// `2025-05-24T10:15:00-05:00`, a bare civil time read in the
/// interpreter's zone, or any of these carrying a bracketed IANA zone
/// such as `2025-05-20T08:00:00[America/Los_Angeles]`.
pub fn to_zoned_datetime(s: &str, timezone: &str) -> (r: Option<ForthicValue>)
    ensures
        match r {
            Some(v) => spec_to_zoned(s@, timezone@) == Some(value_view(v)),
            None => spec_to_zoned(s@, timezone@) is None,
        },
{
    let chars = string_to_chars(s);
    let n = chars.len();
    let bracket = first_bracket_idx(&chars);
    let body_len: usize;
    let zone_chars: Option<Vec<char>>;
    match bracket {
        Some(bi) => {
            if n < 2 || chars[n - 1] != ']' || bi >= n - 1 {
                return None;
            }
            body_len = bi;
            let mut z: Vec<char> = Vec::new();
            let mut j: usize = bi + 1;
            while j < n - 1
                invariant
                    bi + 1 <= j <= n - 1,
                    n == chars@.len(),
                    n >= 2,
                    z@ =~= chars@.subrange(bi + 1, j as int),
                decreases n - j,
            {
                z.push(chars[j]);
                j = j + 1;
                proof {
                    assert(z@ =~= chars@.subrange(bi + 1, j as int));
                }
            }
            zone_chars = Some(z);
        },
        None => {
            body_len = n;
            zone_chars = None;
        },
    }
    let ghost body = if bracket is Some {
        chars@.take(bracket->Some_0 as int)
    } else {
        chars@
    };
    let ghost gzone: Option<Seq<char>> = if bracket is Some {
        Some(chars@.subrange(bracket->Some_0 + 1, n - 1))
    } else {
        None
    };
    proof {
        assert(spec_to_zoned(s@, timezone@) == spec_zoned_body(body, gzone, timezone@));
        assert(body.len() == body_len);
        if body_len >= 19 {
            assert(forall|j: int| 0 <= j < body.len() ==> body[j] == chars@[j]);
            lemma_civil_parts_prefix(body, chars@);
        }
    }
    let civil = match parse_civil(&chars, 0, body_len) {
        Some(c) => c,
        None => {
            return None;
        },
    };
    let (y, mo, d, h, mi, sec) = civil;
    if !date_is_valid(y, mo, d) || !(h <= 23 && mi <= 59 && sec <= 59) {
        return None;
    }
    if body_len == 19 {
        let zone: String = match &zone_chars {
            Some(z) => crate::chars::chars_to_string(z),
            None => timezone.to_owned(),
        };
        match crate::tz::local_zone_offset(zone.as_str(), y, mo, d, h, mi, sec) {
            Some(offset) => Some(ForthicValue::DateTime(ZonedDateTime {
                date: Date { year: y, month: mo, day: d },
                time: Time { hour: h, minute: mi, second: sec },
                offset_seconds: offset,
                tz_name: zone,
            })),
            None => None,
        }
    } else if body_len == 20 && chars[19] == 'Z' && zone_chars.is_none() {
        Some(ForthicValue::DateTime(ZonedDateTime {
            date: Date { year: y, month: mo, day: d },
            time: Time { hour: h, minute: mi, second: sec },
            offset_seconds: 0,
            tz_name: String::from_str("UTC"),
        }))
    } else if body_len == 25 {
        proof {
            assert(forall|j: int| 19 <= j < 25 ==> body[j] == chars@[j]);
            assert(spec_offset_part(body, 19) == spec_offset_part(chars@, 19));
        }
        let offset = match parse_offset(&chars, 19) {
            Some(o) => o,
            None => {
                return None;
            },
        };
        let zone: String = match &zone_chars {
            Some(z) => crate::chars::chars_to_string(z),
            None => {
                let mut off_text: Vec<char> = Vec::new();
                let mut j: usize = 19;
                while j < 25
                    invariant
                        19 <= j <= 25,
                        chars@.len() >= 25,
                        off_text@ =~= chars@.subrange(19, j as int),
                    decreases 25 - j,
                {
                    off_text.push(chars[j]);
                    j = j + 1;
                    proof {
                        assert(off_text@ =~= chars@.subrange(19, j as int));
                    }
                }
                proof {
                    assert(body.subrange(19, 25) =~= chars@.subrange(19, 25));
                }
                crate::chars::chars_to_string(&off_text)
            },
        };
        Some(ForthicValue::DateTime(ZonedDateTime {
            date: Date { year: y, month: mo, day: d },
            time: Time { hour: h, minute: mi, second: sec },
            offset_seconds: offset,
            tz_name: zone,
        }))
    } else {
        None
    }
}

/// The position of the first `[`, if any.
fn first_bracket_idx(chars: &Vec<char>) -> (r: Option<usize>)
    ensures
        match r {
            Some(i) => spec_first_bracket(chars@, 0) == Some(i as int) && i < chars@.len(),
            None => spec_first_bracket(chars@, 0) is None,
        },
{
    let mut i: usize = 0;
    while i < chars.len()
        invariant
            i <= chars@.len(),
            spec_first_bracket(chars@, 0) == spec_first_bracket(chars@, i as int),
        decreases chars@.len() - i,
    {
        if chars[i] == '[' {
            return Some(i);
        }
        i = i + 1;
    }
    None
}

/// The civil core reads the same in a body and in the text it is a
/// prefix of.
proof fn lemma_civil_parts_prefix(body: Seq<char>, s: Seq<char>)
    requires
        body.len() >= 19,
        forall|j: int| 0 <= j < body.len() ==> body[j] == s[j],
        body.len() <= s.len(),
    ensures
        spec_civil_parts(body, 0) == spec_civil_parts(s, 0),
{
    assert(forall|j: int| 0 <= j < 19 ==> body[j] == s[j]);
}

/// Parse the nineteen-character civil core at the start of the body.
fn parse_civil(chars: &Vec<char>, i: usize, body_len: usize) -> (r: Option<
    (i32, u32, u32, u32, u32, u32),
>)
    requires
        i == 0,
        body_len <= chars@.len(),
    ensures
        body_len < 19 ==> r is None,
        body_len >= 19 ==> match r {
            Some((y, mo, d, h, mi, sec)) => spec_civil_parts(chars@, 0) == Some(
                (y as int, mo as int, d as int, h as int, mi as int, sec as int),
            ) && 0 <= y <= 9999 && mo <= 99 && d <= 99 && h <= 99 && mi <= 99 && sec <= 99,
            None => spec_civil_parts(chars@, 0) is None,
        },
{
    if body_len < 19 {
        return None;
    }
    if !(char_is_digit(chars[0]) && char_is_digit(chars[1]) && char_is_digit(chars[2])
        && char_is_digit(chars[3]) && chars[4] == '-' && char_is_digit(chars[5]) && char_is_digit(
        chars[6],
    ) && chars[7] == '-' && char_is_digit(chars[8]) && char_is_digit(chars[9]) && chars[10] == 'T'
        && char_is_digit(chars[11]) && char_is_digit(chars[12]) && chars[13] == ':'
        && char_is_digit(chars[14]) && char_is_digit(chars[15]) && chars[16] == ':'
        && char_is_digit(chars[17]) && char_is_digit(chars[18])) {
        return None;
    }
    let y = (crate::chars::char_digit_val(chars[0]) * 1000 + crate::chars::char_digit_val(
        chars[1],
    ) * 100 + crate::chars::char_digit_val(chars[2]) * 10 + crate::chars::char_digit_val(
        chars[3],
    )) as i32;
    let mo = (crate::chars::char_digit_val(chars[5]) * 10 + crate::chars::char_digit_val(
        chars[6],
    )) as u32;
    let d = (crate::chars::char_digit_val(chars[8]) * 10 + crate::chars::char_digit_val(
        chars[9],
    )) as u32;
    let h = (crate::chars::char_digit_val(chars[11]) * 10 + crate::chars::char_digit_val(
        chars[12],
    )) as u32;
    let mi = (crate::chars::char_digit_val(chars[14]) * 10 + crate::chars::char_digit_val(
        chars[15],
    )) as u32;
    let sec = (crate::chars::char_digit_val(chars[17]) * 10 + crate::chars::char_digit_val(
        chars[18],
    )) as u32;
    Some((y, mo, d, h, mi, sec))
}

/// Parse a `±HH:MM` offset at `i`, in seconds east of UTC.
fn parse_offset(chars: &Vec<char>, i: usize) -> (r: Option<i32>)
    requires
        i + 6 <= chars@.len(),
    ensures
        match r {
            Some(o) => spec_offset_part(chars@, i as int) == Some(o as int) && -86400 < o < 86400,
            None => spec_offset_part(chars@, i as int) is None,
        },
{
    proof {
        vstd::std_specs::vec::axiom_spec_len(chars);
    }
    let sign_plus = chars[i] == '+';
    if !(sign_plus || chars[i] == '-') {
        return None;
    }
    if !(char_is_digit(chars[i + 1]) && char_is_digit(chars[i + 2]) && chars[i + 3] == ':'
        && char_is_digit(chars[i + 4]) && char_is_digit(chars[i + 5])) {
        return None;
    }
    let hh = crate::chars::char_digit_val(chars[i + 1]) * 10 + crate::chars::char_digit_val(
        chars[i + 2],
    );
    let mm = crate::chars::char_digit_val(chars[i + 4]) * 10 + crate::chars::char_digit_val(
        chars[i + 5],
    );
    if hh > 23 || mm > 59 {
        return None;
    }
    let total = (hh * 3600 + mm * 60) as i32;
    if sign_plus {
        Some(total)
    } else {
        Some(-total)
    }
}

} // verus!
