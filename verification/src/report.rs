//! The text reports that come with a memory trace: the timings of the
//! compiler passes and the output of `time`. The reports are read as
//! bytes; what is found are the places of their fields.

use crate::text::{
    find_byte, find_other, find_text, lemma_position_of, lemma_position_of_other,
    lemma_position_of_text, position_of, position_of_other, position_of_text,
};
use vstd::prelude::*;

verus! {

/// The byte of a space.
pub const SPACE: u8 = 0x20;

/// The byte of a tabulator.
pub const TAB: u8 = 0x09;

/// The byte that ends a line.
pub const NEWLINE: u8 = 0x0a;

/// The byte of a carriage return.
pub const RETURN: u8 = 0x0d;

/// How many bytes the label in front of a time takes.
pub const LABEL_LEN: usize = 6;

/// A stretch of text: the bytes from `start` up to, not including, `end`.
#[derive(Clone, Copy, Debug, PartialEq, Eq, Structural)]
pub struct Span {
    pub start: usize,
    pub end: usize,
}

/// Where the fields of one line of pass timings lie: after the
/// indentation and a label of six bytes comes the time, up to the next
/// space, and after the first tabulator the name of the pass.
#[derive(Clone, Copy, Debug, PartialEq, Eq, Structural)]
pub struct PassFields {
    /// The number of spaces in front of the label.
    pub indent: usize,
    /// The time as it is written.
    pub time: Span,
    /// Where the name begins; it ends with the line.
    pub name_start: usize,
}

/// Why a line holds no pass timing.
#[derive(Clone, Copy, Debug, PartialEq, Eq, Structural)]
pub enum PassLineError {
    /// The line holds nothing but spaces.
    Blank,
    /// The line ends inside the label.
    Short,
    /// No space follows the time.
    Unterminated,
    /// No tabulator follows the label.
    Unnamed,
}

/// The fields of the line `s`.
pub open spec fn fields_of(s: Seq<u8>) -> Result<PassFields, PassLineError> {
    match position_of_other(s, 0, SPACE) {
        None => Err(PassLineError::Blank),
        Some(indent) => if indent + LABEL_LEN > s.len() {
            Err(PassLineError::Short)
        } else {
            match position_of(s, indent + LABEL_LEN, SPACE) {
                None => Err(PassLineError::Unterminated),
                Some(time_end) => match position_of(s, indent + LABEL_LEN, TAB) {
                    None => Err(PassLineError::Unnamed),
                    Some(tab) => Ok(
                        PassFields {
                            indent: indent as usize,
                            time: Span {
                                start: (indent + LABEL_LEN) as usize,
                                end: time_end as usize,
                            },
                            name_start: (tab + 1) as usize,
                        },
                    ),
                },
            }
        },
    }
}

/// Finds the fields of one line of pass timings.
pub fn pass_fields(line: &[u8]) -> (r: Result<PassFields, PassLineError>)
    ensures
        r == fields_of(line@),
        r matches Ok(f) ==> f.indent + LABEL_LEN == f.time.start <= f.time.end < line@.len()
            && f.time.start < f.name_start <= line@.len(),
{
    proof {
        lemma_position_of_other(line@, 0, SPACE);
    }
    let indent: usize = match find_other(line, 0, SPACE) {
        Some(i) => i,
        None => {
            return Err(PassLineError::Blank);
        },
    };
    if line.len() - indent < LABEL_LEN {
        return Err(PassLineError::Short);
    }
    let start: usize = indent + LABEL_LEN;
    proof {
        lemma_position_of(line@, start as int, SPACE);
        lemma_position_of(line@, start as int, TAB);
    }
    let end: usize = match find_byte(line, start, SPACE) {
        Some(i) => i,
        None => {
            return Err(PassLineError::Unterminated);
        },
    };
    let tab: usize = match find_byte(line, start, TAB) {
        Some(i) => i,
        None => {
            return Err(PassLineError::Unnamed);
        },
    };
    Ok(PassFields { indent, time: Span { start, end }, name_start: tab + 1 })
}

/// The running state of a pass timing report: the indentation of the
/// line before and the number of lines since the last section total.
pub struct SectionCounter {
    last_indent: usize,
    count: u64,
}

impl SectionCounter {
    /// The indentation of the line seen last; zero at the start.
    pub closed spec fn last_indent(&self) -> usize {
        self.last_indent
    }

    /// The number of lines counted towards the next section total.
    pub closed spec fn count(&self) -> u64 {
        self.count
    }

    /// The state before the first line.
    pub fn new() -> (c: SectionCounter)
        ensures
            c.last_indent() == 0,
            c.count() == 0,
    {
        SectionCounter { last_indent: 0, count: 0 }
    }

    /// The number of lines counted towards the next section total.
    pub fn counted(&self) -> (n: u64)
        ensures
            n == self.count(),
    {
        self.count
    }

    /// Takes in the indentation of the next line. A line indented less
    /// than the one before closes a section: the count so far is handed
    /// out and starts again at one. Any other line is counted.
    pub fn observe(&mut self, indent: usize) -> (total: Option<u64>)
        requires
            old(self).count() < u64::MAX,
        ensures
            final(self).last_indent() == indent,
            total == section_total(old(self).last_indent() as int, old(self).count() as int, indent as int),
            final(self).count() == count_after(
                old(self).last_indent() as int,
                old(self).count() as int,
                indent as int,
            ),
    {
        let total: Option<u64> = if indent < self.last_indent {
            let n: u64 = self.count;
            self.count = 1;
            Some(n)
        } else {
            self.count = self.count + 1;
            None
        };
        self.last_indent = indent;
        total
    }
}

/// What a line of indentation `indent` closes: the section of `count`
/// lines, where the line before was indented more.
pub open spec fn section_total(last_indent: int, count: int, indent: int) -> Option<u64> {
    if indent < last_indent {
        Some(count as u64)
    } else {
        None
    }
}

/// The count of lines after a line of indentation `indent`.
pub open spec fn count_after(last_indent: int, count: int, indent: int) -> int {
    if indent < last_indent {
        1
    } else {
        count + 1
    }
}

/// One pass of the report: where its name and its time stand in the
/// text and, for a line that closes a section, the number of lines that
/// the section had. The time of such a line is written but does not
/// count.
#[derive(Clone, Copy, Debug, PartialEq, Eq, Structural)]
pub struct PassTiming {
    pub name: Span,
    pub time: Span,
    pub total: Option<u64>,
}

/// The line that holds no pass timing, by the place where it begins.
#[derive(Clone, Copy, Debug, PartialEq, Eq, Structural)]
pub struct PassTimingError {
    pub line: usize,
    pub reason: PassLineError,
}

/// Where the line that begins at `start` ends: at the next newline, or
/// with the text.
pub open spec fn line_end(text: Seq<u8>, start: int) -> int {
    match position_of(text, start, NEWLINE) {
        Some(end) => end,
        None => text.len() as int,
    }
}

/// Where what the line holds ends: a carriage return directly in front of
/// the newline belongs to the end of the line.
pub open spec fn line_stop(text: Seq<u8>, start: int) -> int {
    let end = line_end(text, start);
    if start < end < text.len() && text[end - 1] == RETURN {
        end - 1
    } else {
        end
    }
}

/// The entries `done` in front of what is still to come.
pub open spec fn followed_by(
    done: Seq<PassTiming>,
    rest: Result<Seq<PassTiming>, PassTimingError>,
) -> Result<Seq<PassTiming>, PassTimingError> {
    match rest {
        Ok(more) => Ok(done + more),
        Err(e) => Err(e),
    }
}

/// The pass timing of the line from `start` to `stop` with the fields
/// `f`, where the counter stood at `last_indent` and `count` before it.
pub open spec fn timing_at(start: int, stop: int, f: PassFields, last_indent: int, count: int) -> PassTiming {
    PassTiming {
        name: Span { start: (start + f.name_start) as usize, end: stop as usize },
        time: Span { start: (start + f.time.start) as usize, end: (start + f.time.end) as usize },
        total: section_total(last_indent, count, f.indent as int),
    }
}

/// The pass timings of the lines of `text` from `start` on, where the
/// counter stands at `last_indent` and `count`. Empty lines are passed
/// over; the first line without a pass timing ends the reading.
pub open spec fn timings_from(text: Seq<u8>, start: int, last_indent: int, count: int) -> Result<
    Seq<PassTiming>,
    PassTimingError,
>
    decreases text.len() + 1 - start,
{
    if start < 0 || start >= text.len() {
        Ok(Seq::empty())
    } else {
        let next = line_end(text, start) + 1;
        let stop = line_stop(text, start);
        proof {
            lemma_position_of(text, start, NEWLINE);
        }
        if stop == start {
            timings_from(text, next, last_indent, count)
        } else {
            match fields_of(text.subrange(start, stop)) {
                Err(reason) => Err(PassTimingError { line: start as usize, reason }),
                Ok(f) => {
                    let rest = timings_from(
                        text,
                        next,
                        f.indent as int,
                        count_after(last_indent, count, f.indent as int),
                    );
                    followed_by(seq![timing_at(start, stop, f, last_indent, count)], rest)
                },
            }
        }
    }
}

/// The pass timings of the report `text`.
pub open spec fn pass_timing_spec(text: Seq<u8>) -> Result<Seq<PassTiming>, PassTimingError> {
    timings_from(text, 0, 0, 0)
}

/// What [`pass_timing`] hands out, as a sequence.
pub open spec fn timing_view(r: Result<Vec<PassTiming>, PassTimingError>) -> Result<
    Seq<PassTiming>,
    PassTimingError,
> {
    match r {
        Ok(v) => Ok(v@),
        Err(e) => Err(e),
    }
}

/// A parser for the timing report of the compiler passes.
///
/// Every line that is not empty holds a pass: its name, its time as
/// written and, where it closes a section, the number of lines of the
/// section. The first line that holds none is reported.
pub fn pass_timing(text: &[u8]) -> (r: Result<Vec<PassTiming>, PassTimingError>)
    ensures
        timing_view(r) == pass_timing_spec(text@),
{
    let n: usize = text.len();
    let mut out: Vec<PassTiming> = Vec::new();
    let mut sections = SectionCounter::new();
    let mut start: usize = 0;
    proof {
        assert(followed_by(out@, timings_from(text@, 0, 0, 0)) == timings_from(text@, 0, 0, 0)) by {
            match timings_from(text@, 0, 0, 0) {
                Ok(more) => {
                    assert(out@ + more =~= more);
                },
                Err(_) => {},
            }
        }
    }
    while start < n
        invariant
            n == text@.len(),
            start <= n,
            sections.count() <= start,
            pass_timing_spec(text@) == followed_by(
                out@,
                timings_from(
                    text@,
                    start as int,
                    sections.last_indent() as int,
                    sections.count() as int,
                ),
            ),
        decreases n - start,
    {
        proof {
            lemma_position_of(text@, start as int, NEWLINE);
        }
        let end: usize = match find_byte(text, start, NEWLINE) {
            Some(e) => e,
            None => n,
        };
        let stop: usize = if start < end && end < n && text[end - 1] == RETURN {
            end - 1
        } else {
            end
        };
        let ghost last_indent = sections.last_indent() as int;
        let ghost count = sections.count() as int;
        let ghost done = out@;
        if stop > start {
            match pass_fields(&text[start..stop]) {
                Err(reason) => {
                    return Err(PassTimingError { line: start, reason });
                },
                Ok(f) => {
                    let total: Option<u64> = sections.observe(f.indent);
                    out.push(
                        PassTiming {
                            name: Span { start: start + f.name_start, end: stop },
                            time: Span { start: start + f.time.start, end: start + f.time.end },
                            total,
                        },
                    );
                    proof {
                        let entry = timing_at(start as int, stop as int, f, last_indent, count);
                        let rest = timings_from(
                            text@,
                            end + 1,
                            f.indent as int,
                            count_after(last_indent, count, f.indent as int),
                        );
                        assert(out@ == done.push(entry));
                        match rest {
                            Ok(more) => {
                                assert(done + (seq![entry] + more) =~= done.push(entry) + more);
                            },
                            Err(_) => {},
                        }
                    }
                },
            }
        }
        if end < n {
            start = end + 1;
        } else {
            start = n;
        }
    }
    proof {
        assert(out@ + Seq::<PassTiming>::empty() =~= out@);
    }
    Ok(out)
}

/// Where the times stand in the output of `time`: the time spent in user
/// mode stands in front of `user `, the time spent in the system between
/// that and `system `.
#[derive(Clone, Copy, Debug, PartialEq, Eq, Structural)]
pub struct TimeFields {
    pub user: Span,
    pub system: Span,
}

/// Why a text holds no times.
#[derive(Clone, Copy, Debug, PartialEq, Eq, Structural)]
pub enum TimeError {
    /// The text does not hold `user `.
    NoUser,
    /// The text does not hold `system `.
    NoSystem,
    /// `system ` stands in front of the end of `user `.
    Disordered,
}

/// The text `user `.
pub open spec fn user_mark() -> Seq<u8> {
    seq![0x75u8, 0x73u8, 0x65u8, 0x72u8, 0x20u8]
}

/// The text `system `.
pub open spec fn system_mark() -> Seq<u8> {
    seq![0x73u8, 0x79u8, 0x73u8, 0x74u8, 0x65u8, 0x6du8, 0x20u8]
}

/// The places of the times in the output `text` of `time`.
pub open spec fn extract_time_spec(text: Seq<u8>) -> Result<TimeFields, TimeError> {
    match position_of_text(text, user_mark(), 0) {
        None => Err(TimeError::NoUser),
        Some(i) => match position_of_text(text, system_mark(), 0) {
            None => Err(TimeError::NoSystem),
            Some(j) => if i + user_mark().len() > j {
                Err(TimeError::Disordered)
            } else {
                Ok(
                    TimeFields {
                        user: Span { start: 0, end: i as usize },
                        system: Span { start: (i + user_mark().len()) as usize, end: j as usize },
                    },
                )
            },
        },
    }
}

/// A parser for the output of `time`.
pub fn extract_time(text: &[u8]) -> (r: Result<TimeFields, TimeError>)
    ensures
        r == extract_time_spec(text@),
        r matches Ok(f) ==> f.user.start <= f.user.end <= f.system.start <= f.system.end
            <= text@.len(),
{
    let n: usize = text.len();
    let mut user: Vec<u8> = Vec::new();
    user.push(0x75);
    user.push(0x73);
    user.push(0x65);
    user.push(0x72);
    user.push(SPACE);
    let mut system: Vec<u8> = Vec::new();
    system.push(0x73);
    system.push(0x79);
    system.push(0x73);
    system.push(0x74);
    system.push(0x65);
    system.push(0x6d);
    system.push(SPACE);
    proof {
        assert(user@ =~= user_mark());
        assert(system@ =~= system_mark());
        assert(user_mark().len() == 5);
        assert(system_mark().len() == 7);
        lemma_position_of_text(text@, user_mark(), 0);
        lemma_position_of_text(text@, system_mark(), 0);
    }
    let i: usize = match find_text(text, user.as_slice()) {
        Some(i) => i,
        None => {
            return Err(TimeError::NoUser);
        },
    };
    let j: usize = match find_text(text, system.as_slice()) {
        Some(j) => j,
        None => {
            return Err(TimeError::NoSystem);
        },
    };
    if i + 5 > j {
        return Err(TimeError::Disordered);
    }
    Ok(TimeFields { user: Span { start: 0, end: i }, system: Span { start: i + 5, end: j } })
}

} // verus!
