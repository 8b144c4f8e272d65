//! Timestamps with a time-zone offset, and the ways to render them.

use vstd::prelude::*;
use vstd::string::StringExecFns;

verus! {

/// The ten digits of decimal numbers.
pub open spec fn decimal_digit(d: nat) -> char {
    seq!['0', '1', '2', '3', '4', '5', '6', '7', '8', '9'][d as int]
}

/// The decimal form of a natural number, without leading zeros.
pub open spec fn decimal_digits(n: nat) -> Seq<char>
    decreases n,
{
    if n < 10 {
        seq![decimal_digit(n)]
    } else {
        decimal_digits(n / 10).push(decimal_digit(n % 10))
    }
}

/// The decimal form of an integer, with `-` before a negative one.
pub open spec fn decimal_text(n: int) -> Seq<char> {
    if n < 0 {
        seq!['-'] + decimal_digits((-n) as nat)
    } else {
        decimal_digits(n as nat)
    }
}

/// The decimal form of a natural number in at least two digits.
pub open spec fn two_digits(n: nat) -> Seq<char> {
    if n < 10 {
        seq!['0'] + decimal_digits(n)
    } else {
        decimal_digits(n)
    }
}

/// An offset from UTC in seconds as a sign, the hours and the minutes, each
/// in two digits, like `+0800` or `-0130`.
pub open spec fn offset_text(offset: int) -> Seq<char> {
    let distance = if offset < 0 {
        -offset
    } else {
        offset
    };
    seq![if offset < 0 {
        '-'
    } else {
        '+'
    }] + two_digits((distance / 3600) as nat) + two_digits(((distance % 3600) / 60) as nat)
}

/// A time in raw form: the seconds since the epoch, a space, and the
/// offset, like `1660874655 +0800`.
pub open spec fn raw_text(time: Time) -> Seq<char> {
    decimal_text(time.seconds as int) + seq![' '] + offset_text(time.offset as int)
}

/// One decimal digit as a string.
fn digit_str(d: u64) -> (text: &'static str)
    requires
        d < 10,
    ensures
        text@ == seq![decimal_digit(d as nat)],
{
    proof {
        reveal_strlit("0");
        reveal_strlit("1");
        reveal_strlit("2");
        reveal_strlit("3");
        reveal_strlit("4");
        reveal_strlit("5");
        reveal_strlit("6");
        reveal_strlit("7");
        reveal_strlit("8");
        reveal_strlit("9");
    }
    let text = if d == 0 {
        "0"
    } else if d == 1 {
        "1"
    } else if d == 2 {
        "2"
    } else if d == 3 {
        "3"
    } else if d == 4 {
        "4"
    } else if d == 5 {
        "5"
    } else if d == 6 {
        "6"
    } else if d == 7 {
        "7"
    } else if d == 8 {
        "8"
    } else {
        "9"
    };
    assert(text@ =~= seq![decimal_digit(d as nat)]);
    text
}

/// The decimal form of a natural number.
pub fn decimal_string(n: u64) -> (text: String)
    ensures
        text@ == decimal_digits(n as nat),
    decreases n,
{
    if n < 10 {
        String::from_str(digit_str(n))
    } else {
        let mut text = decimal_string(n / 10);
        text.append(digit_str(n % 10));
        assert(text@ =~= decimal_digits((n / 10) as nat).push(decimal_digit((n % 10) as nat)));
        text
    }
}

/// Append the decimal form of a natural number in at least two digits.
fn append_two_digits(text: &mut String, n: u64)
    ensures
        final(text)@ == old(text)@ + two_digits(n as nat),
{
    if n < 10 {
        proof {
            reveal_strlit("0");
        }
        text.append("0");
    }
    let digits = decimal_string(n);
    text.append(digits.as_str());
    assert(text@ =~= old(text)@ + two_digits(n as nat));
}

/// A timestamp with timezone.
#[derive(Clone, Copy, Debug, PartialEq, Eq, Structural)]
pub struct Time {
    /// The seconds that have passed since UNIX epoch.
    pub seconds: i64,
    /// The time's offset from UTC in seconds, which may be negative.
    pub offset: i32,
}

impl Default for Time {
    fn default() -> (t: Time)
        ensures
            t.seconds == 0,
            t.offset == 0,
    {
        Time { seconds: 0, offset: 0 }
    }
}

impl Time {
    /// Create a timestamp from its two parts.
    pub fn new(seconds: i64, offset: i32) -> (t: Time)
        ensures
            t.seconds == seconds,
            t.offset == offset,
    {
        Time { seconds, offset }
    }

    /// The time in raw form: the seconds since the epoch, a space, and the
    /// offset as sign, hours and minutes, like `1660874655 +0800`.
    pub fn to_raw(&self) -> (text: String)
        ensures
            text@ == raw_text(*self),
    {
        proof {
            reveal_strlit("-");
            reveal_strlit("+");
            reveal_strlit(" ");
        }
        let mut text = String::from_str("");
        assert(text@ =~= Seq::<char>::empty()) by {
            reveal_strlit("");
        }
        let seconds: u64 = if self.seconds < 0 {
            text.append("-");
            (-(self.seconds + 1)) as u64 + 1
        } else {
            self.seconds as u64
        };
        let digits = decimal_string(seconds);
        text.append(digits.as_str());
        assert(text@ =~= decimal_text(self.seconds as int));
        text.append(" ");
        let distance: u64 = if self.offset < 0 {
            text.append("-");
            (-(self.offset as i64)) as u64
        } else {
            text.append("+");
            self.offset as u64
        };
        append_two_digits(&mut text, distance / 3600);
        append_two_digits(&mut text, (distance % 3600) / 60);
        assert(text@ =~= raw_text(*self));
        text
    }

    /// Return true if this time has been initialized to anything non-default, i.e. 0.
    pub fn is_set(&self) -> (set: bool)
        ensures
            set == (self.seconds != 0 || self.offset != 0),
    {
        self.seconds != 0 || self.offset != 0
    }
}

/// A custom format for printing and parsing time.
#[derive(Clone, Copy, Debug)]
pub struct CustomFormat(pub(crate) &'static str);

impl View for CustomFormat {
    type V = Seq<char>;

    /// The characters of the format string.
    closed spec fn view(&self) -> Seq<char> {
        self.0@
    }
}

impl CustomFormat {
    /// Create a new custom `format`.
    pub fn new(format: &'static str) -> (custom: CustomFormat)
        ensures
            custom@ == format@,
    {
        CustomFormat(format)
    }

    /// The format string this value was made with.
    pub fn as_str(&self) -> (format: &'static str)
        ensures
            format@ == self@,
    {
        self.0
    }
}

/// Various ways to describe a time format.
#[derive(Clone, Copy, Debug)]
pub enum Format {
    /// A custom format.
    Custom(CustomFormat),
    /// The seconds since 1970, also known as unix epoch, like `1660874655`.
    Unix,
    /// The seconds since 1970, followed by the offset, like `1660874655 +0800`
    Raw,
}

impl From<CustomFormat> for Format {
    fn from(custom_format: CustomFormat) -> (format: Format) {
        Format::Custom(custom_format)
    }
}

impl vstd::std_specs::convert::FromSpecImpl<CustomFormat> for Format {
    open spec fn obeys_from_spec() -> bool {
        true
    }

    open spec fn from_spec(custom_format: CustomFormat) -> Format {
        Format::Custom(custom_format)
    }
}

} // verus!
