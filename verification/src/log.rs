//! Log lines: which are written, and how they look.
use crate::text;
use chrono::{Datelike, Timelike};
use vstd::prelude::*;
use vstd::string::StringExecFns;

verus! {

/// How important a message is.
#[derive(Debug, Clone, Copy, PartialEq, Eq, Structural)]
pub enum Level {
    Error,
    Warn,
    Info,
    Debug,
    Trace,
}

impl Level {
    /// The more a level lets through, the larger its number.
    pub open spec fn number(self) -> u8 {
        match self {
            Level::Error => 0,
            Level::Warn => 1,
            Level::Info => 2,
            Level::Debug => 3,
            Level::Trace => 4,
        }
    }

    /// The level as it stands in a log line, in colour.
    pub open spec fn label(self) -> Seq<char> {
        match self {
            Level::Error => "\x1b[31mERROR\x1b[0m"@,
            Level::Warn => "\x1b[33mWARN \x1b[0m"@,
            Level::Info => "\x1b[32mINFO \x1b[0m"@,
            Level::Debug => "\x1b[34mDEBUG\x1b[0m"@,
            Level::Trace => "\x1b[36mTRACE\x1b[0m"@,
        }
    }

    pub fn as_number(self) -> (number: u8)
        ensures
            number == self.number(),
    {
        match self {
            Level::Error => 0,
            Level::Warn => 1,
            Level::Info => 2,
            Level::Debug => 3,
            Level::Trace => 4,
        }
    }

    pub fn as_label(self) -> (label: &'static str)
        ensures
            label@ == self.label(),
    {
        match self {
            Level::Error => "\x1b[31mERROR\x1b[0m",
            Level::Warn => "\x1b[33mWARN \x1b[0m",
            Level::Info => "\x1b[32mINFO \x1b[0m",
            Level::Debug => "\x1b[34mDEBUG\x1b[0m",
            Level::Trace => "\x1b[36mTRACE\x1b[0m",
        }
    }
}

/// The level that a setting asks for: its name, in any case. Without a setting, or with one that
/// is no level, it is the level of information.
pub open spec fn configured_level(setting: Option<Seq<char>>) -> Level {
    match setting {
        None => Level::Info,
        Some(value) => {
            let name = text::ascii_lowercase_text(value);
            if name == "error"@ {
                Level::Error
            } else if name == "warn"@ {
                Level::Warn
            } else if name == "info"@ {
                Level::Info
            } else if name == "debug"@ {
                Level::Debug
            } else if name == "trace"@ {
                Level::Trace
            } else {
                Level::Info
            }
        },
    }
}

/// The level that a setting asks for.
pub fn init(setting: Option<&str>) -> (level: Level)
    ensures
        level == configured_level(
            match setting {
                Some(value) => Some(value@),
                None => None,
            },
        ),
{
    match setting {
        None => Level::Info,
        Some(value) => {
            let lower = text::to_ascii_lowercase(value);
            let name = lower.as_str();
            if text::same_text(name, "error") {
                Level::Error
            } else if text::same_text(name, "warn") {
                Level::Warn
            } else if text::same_text(name, "info") {
                Level::Info
            } else if text::same_text(name, "debug") {
                Level::Debug
            } else if text::same_text(name, "trace") {
                Level::Trace
            } else {
                Level::Info
            }
        },
    }
}

/// Whether a message is written: if it is at least as important as the configured level asks.
pub fn is_enabled(configured: Level, level: Level) -> (result: bool)
    ensures
        result == (level.number() <= configured.number()),
{
    configured.as_number() >= level.as_number()
}

/// A date and a time of day, in UTC.
#[derive(Debug, Clone, Copy, PartialEq, Eq, Structural)]
pub struct DateTime {
    pub year: i32,
    pub month: u32,
    pub day: u32,
    pub hour: u32,
    pub minute: u32,
    pub second: u32,
}

pub open spec fn is_leap_year(year: int) -> bool {
    year % 4 == 0 && (year % 100 != 0 || year % 400 == 0)
}

pub open spec fn days_in_month(year: int, month: int) -> int {
    if month == 2 {
        if is_leap_year(year) {
            29
        } else {
            28
        }
    } else if month == 4 || month == 6 || month == 9 || month == 11 {
        30
    } else {
        31
    }
}

/// How many days of a year lie before a month.
pub open spec fn days_before_month(year: int, month: int) -> int
    decreases month,
{
    if month <= 1 {
        0
    } else {
        days_before_month(year, month - 1) + days_in_month(year, month - 1)
    }
}

/// How many days lie between the first day of 1970 and a date of the Gregorian calendar.
pub open spec fn day_number(year: int, month: int, day: int) -> int {
    365 * (year - 1) + (year - 1) / 4 - (year - 1) / 100 + (year - 1) / 400 + days_before_month(
        year,
        month,
    ) + (day - 1) - 719162
}

impl DateTime {
    pub open spec fn wf(self) -> bool {
        &&& 1 <= self.month <= 12
        &&& 1 <= self.day <= days_in_month(self.year as int, self.month as int)
        &&& self.hour < 24
        &&& self.minute < 60
        &&& self.second < 60
    }

    /// The number of seconds since the beginning of 1970.
    pub open spec fn timestamp(self) -> int {
        day_number(self.year as int, self.month as int, self.day as int) * 86400 + self.hour * 3600
            + self.minute * 60 + self.second
    }
}

/// Whether a number of seconds since the beginning of 1970 lies in the range of the calendar: from
/// the first second of the year -262143 to the last one of 262142.
pub open spec fn is_in_calendar(secs: int) -> bool {
    day_number(-262143, 1, 1) * 86400 <= secs < day_number(262143, 1, 1) * 86400
}

/// [`chrono::NaiveDateTime::from_timestamp_opt`] finds the date and time of a timestamp, if the
/// calendar reaches so far. The date is the one that lies so many days from the beginning of 1970.
#[verifier::external_body]
#[allow(deprecated)]
fn date_time(secs: i64) -> (result: Option<DateTime>)
    ensures
        result is Some <==> is_in_calendar(secs as int),
        result matches Some(date_time) ==> date_time.wf() && date_time.timestamp() == secs,
{
    let naive = chrono::NaiveDateTime::from_timestamp_opt(secs, 0)?;
    Some(
        DateTime {
            year: naive.year(),
            month: naive.month(),
            day: naive.day(),
            hour: naive.hour(),
            minute: naive.minute(),
            second: naive.second(),
        },
    )
}

/// Whether a time, given in seconds since the beginning of 1970, has a date.
pub fn has_date(secs: i64) -> (result: bool)
    ensures
        result == is_in_calendar(secs as int),
{
    date_time(secs).is_some()
}

/// A year in decimal notation.
pub open spec fn year_text(year: int) -> Seq<char> {
    if year < 0 {
        "-"@ + text::decimal((-year) as nat)
    } else {
        text::decimal(year as nat)
    }
}

/// A date and time as it stands in a log line.
pub open spec fn timestamp_text(time: DateTime) -> Seq<char> {
    year_text(time.year as int) + "-"@ + text::two_digits(time.month as nat) + "-"@
        + text::two_digits(time.day as nat) + "T"@ + text::two_digits(time.hour as nat) + ":"@
        + text::two_digits(time.minute as nat) + ":"@ + text::two_digits(time.second as nat) + "Z"@
}

/// A log line, without its end.
pub open spec fn line_text(
    time: DateTime,
    level: Level,
    module: Seq<char>,
    message: Seq<char>,
) -> Seq<char> {
    "["@ + timestamp_text(time) + " "@ + level.label() + " "@ + module + "] "@ + message
}

/// Puts a log line together.
pub fn format_line(time: DateTime, level: Level, module: &str, message: &str) -> (line: String)
    ensures
        line@ == line_text(time, level, module@, message@),
{
    let mut line = String::new();
    line.append("[");
    if time.year < 0 {
        line.append("-");
        text::push_decimal(&mut line, (-(time.year as i64)) as u64);
    } else {
        text::push_decimal(&mut line, time.year as u64);
    }
    assert(line@ =~= "["@ + year_text(time.year as int));
    line.append("-");
    text::push_two_digits(&mut line, time.month as u64);
    line.append("-");
    text::push_two_digits(&mut line, time.day as u64);
    line.append("T");
    text::push_two_digits(&mut line, time.hour as u64);
    line.append(":");
    text::push_two_digits(&mut line, time.minute as u64);
    line.append(":");
    text::push_two_digits(&mut line, time.second as u64);
    line.append("Z");
    assert(line@ =~= "["@ + timestamp_text(time));
    line.append(" ");
    line.append(level.as_label());
    line.append(" ");
    line.append(module);
    line.append("] ");
    line.append(message);
    assert(line@ =~= line_text(time, level, module@, message@));
    line
}

/// The log line for a message at a time, given in seconds since the beginning of 1970. There is
/// none if the message is not important enough.
pub fn format_log(
    configured: Level,
    level: Level,
    secs: i64,
    module: &str,
    message: &str,
) -> (line: Option<String>)
    requires
        level.number() <= configured.number() ==> is_in_calendar(secs as int),
    ensures
        line is Some <==> level.number() <= configured.number(),
        line matches Some(line) ==> exists|time: DateTime| #[trigger]
            time.wf() && time.timestamp() == secs && line@ == line_text(
                time,
                level,
                module@,
                message@,
            ),
{
    if is_enabled(configured, level) {
        match date_time(secs) {
            Some(time) => Some(format_line(time, level, module, message)),
            None => None,
        }
    } else {
        None
    }
}

/// Two dates are never the same number of days from the beginning of 1970: a later year, month or
/// day has a larger number. So a timestamp has one date and time only.
pub proof fn law_timestamps_are_unique(a: DateTime, b: DateTime)
    requires
        a.wf(),
        b.wf(),
        a.timestamp() == b.timestamp(),
    ensures
        a == b,
{
    let (ya, ma, da) = (a.year as int, a.month as int, a.day as int);
    let (yb, mb, db) = (b.year as int, b.month as int, b.day as int);
    lemma_within_year(ya, ma, da);
    lemma_within_year(yb, mb, db);
    assert(day_number(ya, ma, da) == day_number(yb, mb, db));
    if ya < yb {
        lemma_years(ya, yb);
    } else if yb < ya {
        lemma_years(yb, ya);
    } else if ma < mb {
        lemma_months(ya, ma, mb);
    } else if mb < ma {
        lemma_months(ya, mb, ma);
    }
}

/// How many days a year has.
spec fn days_in_year(year: int) -> int {
    if is_leap_year(year) {
        366
    } else {
        365
    }
}

/// A date lies in its year.
proof fn lemma_within_year(year: int, month: int, day: int)
    requires
        1 <= month <= 12,
        1 <= day <= days_in_month(year, month),
    ensures
        day_number(year, 1, 1) <= day_number(year, month, day) < day_number(year, 1, 1)
            + days_in_year(year),
{
    reveal_with_fuel(days_before_month, 13);
}

/// A month begins when the ones before it are over.
proof fn lemma_months(year: int, earlier: int, later: int)
    requires
        1 <= earlier < later <= 12,
    ensures
        days_before_month(year, earlier) + days_in_month(year, earlier) <= days_before_month(
            year,
            later,
        ),
    decreases later - earlier,
{
    if earlier + 1 < later {
        lemma_months(year, earlier, later - 1);
        assert(days_in_month(year, later - 1) > 0);
    }
}

/// A quotient grows by one where the divisor divides the number, and nowhere else.
proof fn lemma_quotient_step(n: int, divisor: int)
    requires
        divisor > 0,
    ensures
        n / divisor - (n - 1) / divisor == if n % divisor == 0 {
            1int
        } else {
            0int
        },
{
    let q = n / divisor;
    let r = n % divisor;
    vstd::arithmetic::div_mod::lemma_fundamental_div_mod(n, divisor);
    vstd::arithmetic::div_mod::lemma_mod_division_less_than_divisor(n, divisor);
    assert(divisor * q == q * divisor && divisor * (q - 1) == (q - 1) * divisor && (q - 1) * divisor
        == q * divisor - divisor) by (nonlinear_arith);
    if r == 0 {
        vstd::arithmetic::div_mod::lemma_fundamental_div_mod_converse(
            n - 1,
            divisor,
            q - 1,
            divisor - 1,
        );
    } else {
        vstd::arithmetic::div_mod::lemma_fundamental_div_mod_converse(n - 1, divisor, q, r - 1);
    }
}

/// A year begins when the one before it is over.
proof fn lemma_next_year(year: int)
    ensures
        day_number(year, 1, 1) + days_in_year(year) == day_number(year + 1, 1, 1),
{
    lemma_quotient_step(year, 4);
    lemma_quotient_step(year, 100);
    lemma_quotient_step(year, 400);
    assert(year % 400 == 0 ==> year % 100 == 0);
    assert(year % 100 == 0 ==> year % 4 == 0);
}

/// A year begins when the ones before it are over.
proof fn lemma_years(earlier: int, later: int)
    requires
        earlier < later,
    ensures
        day_number(earlier, 1, 1) + days_in_year(earlier) <= day_number(later, 1, 1),
    decreases later - earlier,
{
    lemma_next_year(earlier);
    if earlier + 1 < later {
        lemma_years(earlier + 1, later);
    }
}

/// A level is asked for by its name, and capitals make no difference. What is no level asks for
/// information, as does no setting at all.
pub proof fn law_levels_are_asked_for_by_name(setting: Seq<char>)
    ensures
        configured_level(None) == Level::Info,
        configured_level(Some(setting)) == configured_level(
            Some(text::ascii_lowercase_text(setting)),
        ),
        setting == seq!['e', 'r', 'r', 'o', 'r'] ==> configured_level(Some(setting))
            == Level::Error,
        setting == seq!['w', 'a', 'r', 'n'] ==> configured_level(Some(setting)) == Level::Warn,
        setting == seq!['d', 'e', 'b', 'u', 'g'] ==> configured_level(Some(setting))
            == Level::Debug,
        setting == seq!['t', 'r', 'a', 'c', 'e'] ==> configured_level(Some(setting))
            == Level::Trace,
        ({
            let name = text::ascii_lowercase_text(setting);
            name != seq!['e', 'r', 'r', 'o', 'r'] && name != seq!['w', 'a', 'r', 'n'] && name
                != seq!['d', 'e', 'b', 'u', 'g'] && name != seq!['t', 'r', 'a', 'c', 'e']
        }) ==> configured_level(Some(setting)) == Level::Info,
{
    reveal_strlit("error");
    reveal_strlit("warn");
    reveal_strlit("info");
    reveal_strlit("debug");
    reveal_strlit("trace");
    assert("error"@ =~= seq!['e', 'r', 'r', 'o', 'r']);
    assert("warn"@ =~= seq!['w', 'a', 'r', 'n']);
    assert("info"@ =~= seq!['i', 'n', 'f', 'o']);
    assert("debug"@ =~= seq!['d', 'e', 'b', 'u', 'g']);
    assert("trace"@ =~= seq!['t', 'r', 'a', 'c', 'e']);
    text::law_lower_case_changes_capitals_only(setting);
    let name = text::ascii_lowercase_text(setting);
    assert(setting == "error"@ || setting == "warn"@ || setting == "debug"@ || setting == "trace"@
        ==> name =~= setting);
    assert("warn"@.len() == 4 && "info"@.len() == 4 && "info"@[0] != "warn"@[0]);
    assert("error"@[0] != "debug"@[0] && "error"@[0] != "trace"@[0] && "debug"@[0] != "trace"@[0]);
}

/// The levels are ordered: each lets through what the one before it lets through, and more.
pub proof fn law_levels_are_ordered()
    ensures
        Level::Error.number() < Level::Warn.number() < Level::Info.number()
            < Level::Debug.number() < Level::Trace.number(),
        Level::Error.number() == 0,
        Level::Trace.number() == 4,
{
}

/// Every level has a label of its own. All of them take the same room, switch a colour on, and
/// switch it off again.
pub proof fn law_labels_line_up(level: Level, other: Level)
    ensures
        level.label().len() == 14,
        level.label().take(3) == seq!['\x1b', '[', '3'],
        level.label()[4] == 'm',
        level.label().skip(10) == seq!['\x1b', '[', '0', 'm'],
        level.label().subrange(5, 10) == (match level {
            Level::Error => seq!['E', 'R', 'R', 'O', 'R'],
            Level::Warn => seq!['W', 'A', 'R', 'N', ' '],
            Level::Info => seq!['I', 'N', 'F', 'O', ' '],
            Level::Debug => seq!['D', 'E', 'B', 'U', 'G'],
            Level::Trace => seq!['T', 'R', 'A', 'C', 'E'],
        }),
        level.label()[3] == (match level {
            Level::Error => '1',
            Level::Warn => '3',
            Level::Info => '2',
            Level::Debug => '4',
            Level::Trace => '6',
        }),
        level != other ==> level.label()[3] != other.label()[3],
{
    reveal_strlit("\x1b[31mERROR\x1b[0m");
    reveal_strlit("\x1b[33mWARN \x1b[0m");
    reveal_strlit("\x1b[32mINFO \x1b[0m");
    reveal_strlit("\x1b[34mDEBUG\x1b[0m");
    reveal_strlit("\x1b[36mTRACE\x1b[0m");
    assert(level.label().take(3) =~= seq!['\x1b', '[', '3']);
    assert(level.label().skip(10) =~= seq!['\x1b', '[', '0', 'm']);
    let name = level.label().subrange(5, 10);
    match level {
        Level::Error => assert(name =~= seq!['E', 'R', 'R', 'O', 'R']),
        Level::Warn => assert(name =~= seq!['W', 'A', 'R', 'N', ' ']),
        Level::Info => assert(name =~= seq!['I', 'N', 'F', 'O', ' ']),
        Level::Debug => assert(name =~= seq!['D', 'E', 'B', 'U', 'G']),
        Level::Trace => assert(name =~= seq!['T', 'R', 'A', 'C', 'E']),
    }
}

/// A timestamp can be read back: year, month and day with hyphens between them, the letter T, hour,
/// minute and second with colons between them, and the letter Z. All but the year take two digits.
pub proof fn law_timestamps_can_be_read(time: DateTime)
    requires
        time.wf(),
    ensures
        ({
            let stamp = timestamp_text(time);
            let n = stamp.len() - 16;
            &&& n > 0
            &&& time.year >= 0 ==> text::number_of(stamp.take(n)) == Some(time.year as int)
            &&& time.year < 0 ==> stamp[0] == '-' && text::number_of(stamp.subrange(1, n)) == Some(
                -(time.year as int),
            )
            &&& stamp[n] == '-' && stamp[n + 3] == '-' && stamp[n + 6] == 'T'
            &&& stamp[n + 9] == ':' && stamp[n + 12] == ':' && stamp[n + 15] == 'Z'
            &&& text::number_of(stamp.subrange(n + 1, n + 3)) == Some(time.month as int)
            &&& text::number_of(stamp.subrange(n + 4, n + 6)) == Some(time.day as int)
            &&& text::number_of(stamp.subrange(n + 7, n + 9)) == Some(time.hour as int)
            &&& text::number_of(stamp.subrange(n + 10, n + 12)) == Some(time.minute as int)
            &&& text::number_of(stamp.subrange(n + 13, n + 15)) == Some(time.second as int)
        }),
{
    reveal_strlit("-");
    reveal_strlit("T");
    reveal_strlit(":");
    reveal_strlit("Z");
    let stamp = timestamp_text(time);
    let year = year_text(time.year as int);
    text::law_two_digits_stand_for_the_number(time.month as nat);
    text::law_two_digits_stand_for_the_number(time.day as nat);
    text::law_two_digits_stand_for_the_number(time.hour as nat);
    text::law_two_digits_stand_for_the_number(time.minute as nat);
    text::law_two_digits_stand_for_the_number(time.second as nat);
    let size = if time.year < 0 {
        -(time.year as int)
    } else {
        time.year as int
    };
    text::law_numbers_round_trip(size as nat);
    text::law_numbers_are_written_without_leading_zeros(size as nat);
    let n = year.len() as int;
    assert(stamp.len() == n + 16);
    assert(stamp.take(n) =~= year);
    if time.year < 0 {
        assert(stamp.subrange(1, n) =~= text::decimal(size as nat));
    }
    assert(stamp.subrange(n + 1, n + 3) =~= text::two_digits(time.month as nat));
    assert(stamp.subrange(n + 4, n + 6) =~= text::two_digits(time.day as nat));
    assert(stamp.subrange(n + 7, n + 9) =~= text::two_digits(time.hour as nat));
    assert(stamp.subrange(n + 10, n + 12) =~= text::two_digits(time.minute as nat));
    assert(stamp.subrange(n + 13, n + 15) =~= text::two_digits(time.second as nat));
}

/// A log line ends with its message, and what stands before that is in brackets: the time, the level
/// and the module, with blanks between them.
pub proof fn law_lines_hold_all_their_parts(
    time: DateTime,
    level: Level,
    module: Seq<char>,
    message: Seq<char>,
)
    ensures
        ({
            let line = line_text(time, level, module, message);
            let stamp = timestamp_text(time);
            let a = 1 + stamp.len() as int;
            let b = a + 1 + level.label().len();
            let c = b + 1 + module.len();
            &&& line.len() == c + 2 + message.len()
            &&& line[0] == '[' && line[a] == ' ' && line[b] == ' ' && line[c] == ']'
            &&& line[c + 1] == ' '
            &&& line.subrange(1, a) == stamp
            &&& line.subrange(a + 1, b) == level.label()
            &&& line.subrange(b + 1, c) == module
            &&& line.skip(c + 2) == message
        }),
{
    reveal_strlit("[");
    reveal_strlit(" ");
    reveal_strlit("] ");
    let line = line_text(time, level, module, message);
    let stamp = timestamp_text(time);
    let a = 1 + stamp.len() as int;
    let b = a + 1 + level.label().len();
    let c = b + 1 + module.len();
    assert(line.subrange(1, a) =~= stamp);
    assert(line.subrange(a + 1, b) =~= level.label());
    assert(line.subrange(b + 1, c) =~= module);
    assert(line.skip(c + 2) =~= message);
}

/// The days of the calendar follow each other without a gap, from the first of January 1970 on and
/// back: the days of a month, the months of a year, and the years.
pub proof fn law_days_follow_each_other(year: int, month: int, day: int)
    requires
        1 <= month <= 12,
    ensures
        day_number(1970, 1, 1) == 0,
        day_number(year, month, day + 1) == day_number(year, month, day) + 1,
        month < 12 ==> day_number(year, month + 1, 1) == day_number(
            year,
            month,
            days_in_month(year, month),
        ) + 1,
        day_number(year + 1, 1, 1) == day_number(year, 12, 31) + 1,
{
    lemma_next_year(year);
    lemma_december(year);
    let length = days_in_month(year, month);
    assert(days_before_month(year, month + 1) == days_before_month(year, month) + length);
    assert(days_before_month(1970, 1) == 0);
}

/// Four months have thirty days and seven have thirty-one. February has twenty-eight, and one more
/// in every fourth year, but for the hundredth ones that are no four hundredth.
pub proof fn law_months_have_their_lengths(year: int, month: int)
    requires
        1 <= month <= 12,
    ensures
        seq![4int, 6, 9, 11].contains(month) ==> days_in_month(year, month) == 30,
        seq![1int, 3, 5, 7, 8, 10, 12].contains(month) ==> days_in_month(year, month) == 31,
        year % 4 != 0 ==> days_in_month(year, 2) == 28,
        year % 4 == 0 && year % 100 != 0 ==> days_in_month(year, 2) == 29,
        year % 100 == 0 && year % 400 != 0 ==> days_in_month(year, 2) == 28,
        year % 400 == 0 ==> days_in_month(year, 2) == 29,
{
}

/// The calendar repeats itself after four hundred years.
pub proof fn law_the_calendar_repeats_itself(year: int, month: int, day: int)
    requires
        1 <= month <= 12,
    ensures
        day_number(year + 400, month, day) == day_number(year, month, day) + 146097,
{
    lemma_four_hundred_years(year, month);
    lemma_quotients_repeat(year - 1);
    assert(year + 400 - 1 == year - 1 + 400);
}

proof fn lemma_quotients_repeat(n: int)
    ensures
        (n + 400) / 4 == n / 4 + 100,
        (n + 400) / 100 == n / 100 + 4,
        (n + 400) / 400 == n / 400 + 1,
{
}

proof fn lemma_december(year: int)
    ensures
        days_before_month(year, 12) + 31 == days_in_year(year),
{
    reveal_with_fuel(days_before_month, 13);
}

proof fn lemma_four_hundred_years(year: int, month: int)
    requires
        1 <= month <= 12,
    ensures
        days_before_month(year + 400, month) == days_before_month(year, month),
    decreases month,
{
    if month > 1 {
        lemma_four_hundred_years(year, month - 1);
        lemma_same_length(year, month - 1);
    }
}

proof fn lemma_same_length(year: int, month: int)
    ensures
        days_in_month(year + 400, month) == days_in_month(year, month),
{
    assert((year + 400) % 4 == year % 4);
    assert((year + 400) % 100 == year % 100);
    assert((year + 400) % 400 == year % 400);
}

/// A second later the timestamp is one larger; a minute, an hour and a day have sixty, three
/// thousand six hundred and eighty-six thousand four hundred seconds.
pub proof fn law_timestamps_count_seconds(a: DateTime, b: DateTime)
    requires
        a.year == b.year,
        a.month == b.month,
    ensures
        b.timestamp() - a.timestamp() == (b.day - a.day) * 86400 + (b.hour - a.hour) * 3600 + (
        b.minute - a.minute) * 60 + (b.second - a.second),
        (DateTime { year: 1970, month: 1, day: 1, hour: 0, minute: 0, second: 0 }).timestamp() == 0,
{
}

/// The calendar reaches from the first second of the year -262143 to the last one of 262142: a time
/// has a date exactly if its year is one of these.
pub proof fn law_the_calendar_is_bounded(time: DateTime)
    requires
        time.wf(),
    ensures
        is_in_calendar(time.timestamp()) <==> -262143 <= time.year <= 262142,
{
    let year = time.year as int;
    let day = day_number(year, time.month as int, time.day as int);
    lemma_within_year(year, time.month as int, time.day as int);
    if year < -262143 {
        lemma_years(year, -262143);
    } else if year > -262143 {
        lemma_years(-262143, year);
    }
    if year < 262143 {
        lemma_years(year, 262143);
    } else if year > 262143 {
        lemma_years(262143, year);
    }
    assert(day * 86400 <= time.timestamp() < (day + 1) * 86400);
}

} // verus!
