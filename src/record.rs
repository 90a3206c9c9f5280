//! Disclosure records: the raw entries a provider hands over, and the
//! normalized records that are stored.

use vstd::prelude::*;
use vstd::string::*;

verus! {

/// A calendar date.
#[derive(Clone, Copy, Debug, PartialEq, Eq, Structural)]
pub struct Date {
    pub year: u16,
    pub month: u8,
    pub day: u8,
}

pub open spec fn leap(year: int) -> bool {
    year % 4 == 0 && (year % 100 != 0 || year % 400 == 0)
}

pub open spec fn month_length(year: int, month: int) -> int {
    if month == 2 {
        if leap(year) {
            29
        } else {
            28
        }
    } else if month == 4 || month == 6 || month == 9 || month == 11 {
        30
    } else {
        31
    }
}

pub open spec fn valid_date(d: Date) -> bool {
    &&& 1 <= d.month <= 12
    &&& 1 <= d.day <= month_length(d.year as int, d.month as int)
}

/// Whether the date exists in the Gregorian calendar.
pub fn is_valid_date(d: Date) -> (r: bool)
    ensures
        r == valid_date(d),
{
    if d.month < 1 || d.month > 12 || d.day < 1 {
        return false;
    }
    let y = d.year;
    let is_leap = y % 4 == 0 && (y % 100 != 0 || y % 400 == 0);
    let len: u8 = if d.month == 2 {
        if is_leap {
            29
        } else {
            28
        }
    } else if d.month == 4 || d.month == 6 || d.month == 9 || d.month == 11 {
        30
    } else {
        31
    };
    d.day <= len
}

/// Unicode white space, the characters that trimming removes.
pub open spec fn blank(c: char) -> bool {
    let u = c as u32;
    ||| 0x09 <= u <= 0x0D
    ||| u == 0x20
    ||| u == 0x85
    ||| u == 0xA0
    ||| u == 0x1680
    ||| 0x2000 <= u <= 0x200A
    ||| u == 0x2028
    ||| u == 0x2029
    ||| u == 0x202F
    ||| u == 0x205F
    ||| u == 0x3000
}

pub fn is_blank(c: char) -> (r: bool)
    ensures
        r == blank(c),
{
    let u = c as u32;
    (0x09 <= u && u <= 0x0D) || u == 0x20 || u == 0x85 || u == 0xA0 || u == 0x1680 || (0x2000
        <= u && u <= 0x200A) || u == 0x2028 || u == 0x2029 || u == 0x202F || u == 0x205F || u
        == 0x3000
}

pub open spec fn trim_start(s: Seq<char>) -> Seq<char>
    decreases s.len(),
{
    if s.len() > 0 && blank(s[0]) {
        trim_start(s.drop_first())
    } else {
        s
    }
}

pub open spec fn trim_end(s: Seq<char>) -> Seq<char>
    decreases s.len(),
{
    if s.len() > 0 && blank(s.last()) {
        trim_end(s.drop_last())
    } else {
        s
    }
}

/// `s` without its leading and trailing white space.
pub open spec fn trim(s: Seq<char>) -> Seq<char> {
    trim_end(trim_start(s))
}

proof fn lemma_trim_start(s: Seq<char>, a: int)
    requires
        0 <= a <= s.len(),
        forall|i: int| 0 <= i < a ==> blank(#[trigger] s[i]),
        a == s.len() || !blank(s[a]),
    ensures
        trim_start(s) == s.subrange(a, s.len() as int),
    decreases a,
{
    if a == 0 {
        assert(s.subrange(0, s.len() as int) =~= s);
    } else {
        let t = s.drop_first();
        assert forall|i: int| 0 <= i < a - 1 implies blank(#[trigger] t[i]) by {
            assert(t[i] == s[i + 1]);
        }
        lemma_trim_start(t, a - 1);
        assert(t.subrange(a - 1, t.len() as int) =~= s.subrange(a, s.len() as int));
    }
}

proof fn lemma_trim_end(s: Seq<char>, b: int)
    requires
        0 <= b <= s.len(),
        forall|i: int| b <= i < s.len() ==> blank(#[trigger] s[i]),
        b == 0 || !blank(s[b - 1]),
    ensures
        trim_end(s) == s.subrange(0, b),
    decreases s.len() - b,
{
    if b == s.len() {
        assert(s.subrange(0, b) =~= s);
    } else {
        let t = s.drop_last();
        assert(blank(s[s.len() - 1]));
        lemma_trim_end(t, b);
        assert(t.subrange(0, b) =~= s.subrange(0, b));
    }
}

/// Copies `s` without its leading and trailing white space.
pub fn trimmed(s: &str) -> (r: String)
    ensures
        r@ == trim(s@),
{
    let n = s.unicode_len();
    let mut a: usize = 0;
    while a < n && is_blank(s.get_char(a))
        invariant
            n == s@.len(),
            a <= n,
            forall|i: int| 0 <= i < a ==> blank(#[trigger] s@[i]),
        decreases n - a,
    {
        a = a + 1;
    }
    let mut b: usize = n;
    while b > a && is_blank(s.get_char(b - 1))
        invariant
            n == s@.len(),
            a <= b <= n,
            forall|i: int| b <= i < n ==> blank(#[trigger] s@[i]),
        decreases b,
    {
        b = b - 1;
    }
    proof {
        lemma_trim_start(s@, a as int);
        let t = s@.subrange(a as int, n as int);
        assert forall|i: int| b - a <= i < t.len() implies blank(#[trigger] t[i]) by {
            assert(t[i] == s@[i + a]);
        }
        lemma_trim_end(t, b - a);
        assert(t.subrange(0, b - a) =~= s@.subrange(a as int, b as int));
    }
    String::from_str(s.substring_char(a, b))
}

/// Hundredths of a percent in a full hundred percent.
pub const FULL_PERCENT: u32 = 10000;

/// One entry of a provider's payload, as published.
#[derive(Clone, Debug)]
pub struct RawDisclosure {
    pub ticker: String,
    pub holder: String,
    pub date: Date,
    /// Position in hundredths of a percent of the issued capital.
    pub pct_hundredths: i64,
}

/// A normalized disclosure, ready to be stored.
#[derive(Clone, Debug)]
pub struct ShortPositionRecord {
    pub ticker: String,
    pub holder: String,
    pub date: Date,
    /// Position in hundredths of a percent, at most `FULL_PERCENT`.
    pub pct_hundredths: u32,
    /// When the figure was fetched from the regulator.
    pub source_ts: u64,
}

/// The mathematical content of a raw entry.
pub struct RawView {
    pub ticker: Seq<char>,
    pub holder: Seq<char>,
    pub date: Date,
    pub pct: i64,
}

/// The mathematical content of a record, which is also a stored row.
pub struct Row {
    pub ticker: Seq<char>,
    pub holder: Seq<char>,
    pub date: Date,
    pub pct: u32,
    pub source_ts: u64,
}

impl View for RawDisclosure {
    type V = RawView;

    open spec fn view(&self) -> RawView {
        RawView {
            ticker: self.ticker@,
            holder: self.holder@,
            date: self.date,
            pct: self.pct_hundredths,
        }
    }
}

impl View for ShortPositionRecord {
    type V = Row;

    open spec fn view(&self) -> Row {
        Row {
            ticker: self.ticker@,
            holder: self.holder@,
            date: self.date,
            pct: self.pct_hundredths,
            source_ts: self.source_ts,
        }
    }
}

/// Why a raw entry cannot be stored.
#[derive(Clone, Copy, Debug, PartialEq, Eq, Structural)]
pub enum RecordError {
    EmptyTicker,
    EmptyHolder,
    InvalidDate,
    PercentOutOfRange,
}

/// The record made from a raw entry fetched at `ts`, or the first check it
/// fails.
pub open spec fn normalized(raw: RawView, ts: u64) -> Result<Row, RecordError> {
    if trim(raw.ticker).len() == 0 {
        Err(RecordError::EmptyTicker)
    } else if trim(raw.holder).len() == 0 {
        Err(RecordError::EmptyHolder)
    } else if !valid_date(raw.date) {
        Err(RecordError::InvalidDate)
    } else if raw.pct < 0 || raw.pct > FULL_PERCENT {
        Err(RecordError::PercentOutOfRange)
    } else {
        Ok(
            Row {
                ticker: trim(raw.ticker),
                holder: trim(raw.holder),
                date: raw.date,
                pct: raw.pct as u32,
                source_ts: ts,
            },
        )
    }
}

/// Turns a raw entry fetched at `ts` into a record: identifiers trimmed and
/// non-empty, a real date, a percentage between 0 and 100.
pub fn normalize(raw: &RawDisclosure, ts: u64) -> (r: Result<ShortPositionRecord, RecordError>)
    ensures
        match r {
            Ok(rec) => normalized(raw@, ts) == Ok::<Row, RecordError>(rec@),
            Err(e) => normalized(raw@, ts) == Err::<Row, RecordError>(e),
        },
{
    let ticker = trimmed(raw.ticker.as_str());
    if ticker.unicode_len() == 0 {
        return Err(RecordError::EmptyTicker);
    }
    let holder = trimmed(raw.holder.as_str());
    if holder.unicode_len() == 0 {
        return Err(RecordError::EmptyHolder);
    }
    if !is_valid_date(raw.date) {
        return Err(RecordError::InvalidDate);
    }
    if raw.pct_hundredths < 0 || raw.pct_hundredths > FULL_PERCENT as i64 {
        return Err(RecordError::PercentOutOfRange);
    }
    Ok(
        ShortPositionRecord {
            ticker,
            holder,
            date: raw.date,
            pct_hundredths: raw.pct_hundredths as u32,
            source_ts: ts,
        },
    )
}

} // verus!
